//! What is shown as a process's command.

use ltop::arena::scope;
use ltop::classify::{
    basename, build_display, build_display_into, find_cc_source, find_lean_file, find_script_arg, has_lean_keyword,
    icontains, is_idle_noise, is_interpreter, is_lean_or_lake, is_lean_related, is_noise,
    lean_label, rfind_bytes,
};
use ltop::platform::Platform;

fn shown(comm: &[u8], args: &[&[u8]], related: bool) -> String {
    String::from_utf8(build_display(comm, args, related)).unwrap()
}

#[test]
fn parts_of_names() {
    assert!(icontains(b"Google Chrome", b"chrome"));
    assert!(!icontains(b"chrom", b"chrome"));
    assert_eq!(basename(b"/usr/bin/env"), b"env");
    assert_eq!(basename(b"env"), b"env");
    assert_eq!(rfind_bytes(b"a/b/a/b", b"a/"), Some(4));
    assert_eq!(rfind_bytes(b"abc", b"d"), None);
}

#[test]
fn noise_by_name() {
    assert!(is_noise(b"x", &[b"/opt/google/chrome/chrome"]));
    assert!(is_noise(b"Spotlight", &[]));
    assert!(is_noise(b"com.apple.thing", &[]));
    assert!(!is_noise(b"bash", &[b"/bin/bash"]));
    assert!(is_idle_noise(Platform::Mac, b"Finder", &[]));
    assert!(!is_idle_noise(Platform::Linux, b"Finder", &[]));
}

#[test]
fn the_prover_and_its_tool() {
    assert!(is_lean_or_lake(b"lean", &[]));
    assert!(is_lean_or_lake(b"x", &[b"/opt/bin/lake"]));
    assert!(!is_lean_or_lake(b"x", &[b"leanish"]));
    assert!(has_lean_keyword(b"my-LEAN-thing"));
    assert!(is_lean_related(b"x", &[b"a", b"b", b"c.lean"]));
    assert!(!is_lean_related(b"x", &[b"a", b"b", b"c", b"d.lean"]));
}

#[test]
fn scripts_of_interpreters() {
    assert!(is_interpreter(b"Python3.12"));
    assert!(is_interpreter(b"node"));
    assert!(!is_interpreter(b"bash"));
    assert_eq!(find_script_arg(&[b"python3", b"-u", b"run.py", b"x"]), Some(&b"run.py"[..]));
    assert_eq!(find_script_arg(&[b"python3"]), None);
    assert_eq!(shown(b"python3", &[b"/usr/bin/python3", b"run.py"], false), "run.py");
}

#[test]
fn other_commands() {
    assert_eq!(shown(b"kworker", &[], false), "kworker");
    assert_eq!(shown(b"bash", &[b"/bin/bash", b"-l"], false), "bash");
    let cc: [&[u8]; 3] = [b"cc1plus", b"-quiet", b"main.cpp"];
    assert_eq!(find_cc_source(&cc), Some(&b"main.cpp"[..]));
    assert_eq!(shown(b"cc1plus", &cc, false), "cc1plus main.cpp");
}

#[test]
fn commands_of_the_prover() {
    let worker: [&[u8]; 2] = [b"lean", b"--worker"];
    assert_eq!(lean_label(&worker), b"lean");
    let server: [&[u8]; 2] = [b"lean", b"--server"];
    assert_eq!(lean_label(&server), b"lean --server");
    let serve: [&[u8]; 2] = [b"lake", b"serve"];
    assert_eq!(lean_label(&serve), b"lake serve");
    assert_eq!(find_lean_file(&worker), None);
}

#[test]
fn commands_are_laid_down_behind_each_other() {
    scope(0, |f| {
        let s = f.str("test", |b| {
            build_display_into(b, b"bash", &[b"/bin/bash"], false);
            b.push(b' ');
            build_display_into(b, b"kworker", &[], false);
        });
        assert_eq!(s.as_slice(), b"bash kworker");
    });
}
