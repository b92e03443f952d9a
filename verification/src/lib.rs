//! The decisions and computations of a process monitor.
//!
//! [`tick`] turns what was read in a round into the screen and into what is
//! remembered for the next one: [`collect`] makes the list of processes out of
//! the texts and records that [`procfs`] and [`mac_sys`] take apart, with
//! [`classify`] for their commands and [`gpu`] for the graphics processors;
//! [`filter`] chooses who is shown, [`tree`] lays them out and [`render`]
//! draws them. [`ticker`] paces the rounds. All scratch lies in the frames of
//! [`arena`].

pub mod arena;
pub mod bytes;
pub mod classify;
pub mod collect;
pub mod filter;
pub mod forest;
pub mod format;
pub mod gpu;
pub mod layout;
pub mod mac_sys;
pub mod map;
pub mod nest;
pub mod osbinary;
pub mod platform;
pub mod procfs;
pub mod procinfo;
pub mod render;
pub mod sandbox;
pub mod sort;
pub mod syscall;
pub mod tick;
pub mod ticker;
pub mod trace;
pub mod tree;
pub mod tty;
pub mod twrite;
pub mod wire;
