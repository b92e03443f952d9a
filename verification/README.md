# ltop

A small process monitor for narrow terminals: the processes that matter, as a
tree, with their share of processor time, their memory, their share of the
graphics processor and their age.

`src/` is the library. It holds everything that the monitor decides and
computes, with contracts that Verus proves: the arena with its scoped frames,
sorting and maps, the reading of what the kernel tells, the choice of what is
shown and below whom, the layout of the tree, the screen text, the system call
filter and the messages to the kernel. `app/` is the program around it: it
makes the system calls and hands their answers to the library. `tests/` runs
the library on concrete values.

Numbers are exact: a share of processor time is counted in millionths of a
percent of one core, a load in hundredths.
