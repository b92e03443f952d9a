//! Which processes are worth showing, and what is shown as their command.
//!
//! Names and arguments are plain bytes. Letters are compared without regard to
//! case where a name is looked up, and exactly where a path is taken apart.

use crate::arena::FBuilder;
use crate::bytes::{
    contents, ends, ends_with, eq_bytes, ieq, lower, same_letters, starts, starts_with, utf8_of,
};
use crate::platform::Platform;
use crate::twrite::TinyWriter;
use vstd::prelude::*;
use vstd::string::StringSliceAdditionalSpecFns;

verus! {

/// `n` bytes of `s` from `i` on equal `part` but for the case of letters.
pub open spec fn letters_at(s: Seq<u8>, part: Seq<u8>, i: int) -> bool {
    0 <= i && i + part.len() <= s.len() && same_letters(s.subrange(i, i + part.len()), part)
}

/// `part` occurs in `s`, but for the case of letters.
pub open spec fn has_letters(s: Seq<u8>, part: Seq<u8>) -> bool {
    exists|i: int| #[trigger] letters_at(s, part, i)
}

/// Whether `needle` occurs in `haystack`, but for the case of letters.
pub fn icontains(haystack: &[u8], needle: &[u8]) -> (r: bool)
    ensures
        r == has_letters(haystack@, needle@),
{
    let n: usize = needle.len();
    let h: usize = haystack.len();
    if h < n {
        return false;
    }
    let last: usize = h - n;
    let mut i: usize = 0;
    loop
        invariant
            n == needle@.len(),
            h == haystack@.len(),
            last + n == h,
            i <= last,
            forall|j: int| 0 <= j < i ==> !#[trigger] letters_at(haystack@, needle@, j),
        decreases last - i,
    {
        if ieq(vstd::slice::slice_subrange(haystack, i, i + n), needle) {
            assert(letters_at(haystack@, needle@, i as int));
            return true;
        }
        assert(!letters_at(haystack@, needle@, i as int));
        if i == last {
            return false;
        }
        i = i + 1;
    }
}

/// Where the part of `s` behind its last slash starts.
pub open spec fn after_slash(s: Seq<u8>) -> nat
    decreases s.len(),
{
    if s.len() == 0 {
        0
    } else if s.last() == 0x2f {
        s.len()
    } else {
        after_slash(s.drop_last())
    }
}

/// The part of `s` behind its last slash; all of it if it has none.
pub open spec fn base_of(s: Seq<u8>) -> Seq<u8> {
    s.skip(after_slash(s) as int)
}

/// The part of `s` behind its last slash.
pub fn basename<'a>(s: &'a [u8]) -> (r: &'a [u8])
    ensures
        r@ == base_of(s@),
{
    let mut n: usize = s.len();
    assert(s@.take(n as int) =~= s@);
    while n > 0 && s[n - 1] != 0x2f
        invariant
            n <= s@.len(),
            after_slash(s@) == after_slash(s@.take(n as int)),
        decreases n,
    {
        assert(s@.take(n as int).drop_last() =~= s@.take(n - 1));
        n = n - 1;
    }
    vstd::slice::slice_subrange(s, n, s.len())
}

/// `part` occurs in `s` at `i`.
pub open spec fn occurs_at(s: Seq<u8>, part: Seq<u8>, i: int) -> bool {
    0 <= i && i + part.len() <= s.len() && s.subrange(i, i + part.len()) == part
}

/// The last place at or before `i` where `part` occurs in `s`.
pub open spec fn last_match(s: Seq<u8>, part: Seq<u8>, i: int) -> Option<nat>
    decreases i + 1,
{
    if i < 0 {
        None
    } else if occurs_at(s, part, i) {
        Some(i as nat)
    } else {
        last_match(s, part, i - 1)
    }
}

/// The last place where `needle` occurs in `haystack`.
pub fn rfind_bytes(haystack: &[u8], needle: &[u8]) -> (r: Option<usize>)
    ensures
        match r {
            Some(i) => last_match(haystack@, needle@, haystack@.len() - needle@.len()) == Some(
                i as nat,
            ) && i + needle@.len() <= haystack@.len(),
            None => last_match(haystack@, needle@, haystack@.len() - needle@.len()) is None,
        },
{
    let n: usize = needle.len();
    let h: usize = haystack.len();
    if h < n {
        return None;
    }
    let top: usize = h - n;
    let mut i: usize = top;
    loop
        invariant
            n == needle@.len(),
            h == haystack@.len(),
            top + n == h,
            i <= top,
            last_match(haystack@, needle@, top as int) == last_match(haystack@, needle@, i as int),
        decreases i,
    {
        if eq_bytes(vstd::slice::slice_subrange(haystack, i, i + n), needle) {
            return Some(i);
        }
        if i == 0 {
            assert(last_match(haystack@, needle@, -1) is None);
            return None;
        }
        i = i - 1;
    }
}

/// The name of a program: its first argument without the path, or else what
/// the system calls it.
pub open spec fn program_name(comm: Seq<u8>, args: Seq<Seq<u8>>) -> Seq<u8> {
    if args.len() > 0 {
        base_of(args[0])
    } else {
        comm
    }
}

/// The name of a program.
fn name_of<'a>(comm: &'a [u8], args: &[&'a [u8]]) -> (r: &'a [u8])
    ensures
        r@ == program_name(comm@, contents(args@)),
{
    if args.len() > 0 {
        assert(contents(args@)[0] == args@[0]@);
        basename(args[0])
    } else {
        comm
    }
}

/// `name` is `lit`, but for the case of letters.
pub open spec fn named(name: Seq<u8>, lit: &str) -> bool {
    same_letters(name, utf8_of(lit))
}

/// Whether `name` is `lit`, but for the case of letters.
fn is_named(name: &[u8], lit: &'static str) -> (r: bool)
    ensures
        r == named(name@, lit),
{
    ieq(name, lit.as_bytes())
}

/// Programs that keep much memory while they do nothing.
#[verifier::opaque]
pub open spec fn idle_noise_name(name: Seq<u8>) -> bool {
    ||| has_letters(name, utf8_of("1password"))
    ||| named(name, "corespotlightd")
    ||| named(name, "managedcorespotlightd")
    ||| named(name, "spotlightknowledged")
    ||| named(name, "mediaanalysisd")
    ||| named(name, "photolibraryd")
    ||| named(name, "photoanalysisd")
    ||| named(name, "sharingd")
    ||| named(name, "contactsd")
    ||| named(name, "finder")
    ||| named(name, "loginwindow")
    ||| named(name, "netnewswire")
    ||| named(name, "preview")
    ||| named(name, "things3")
}

/// Whether the memory of a process is no reason to show it.
pub fn is_idle_noise(platform: Platform, comm: &[u8], args: &[&[u8]]) -> (r: bool)
    ensures
        r == (platform == Platform::Mac && idle_noise_name(
            program_name(comm@, contents(args@)),
        )),
{
    reveal(idle_noise_name);
    match platform {
        Platform::Linux => false,
        Platform::Mac => {
            let name: &[u8] = name_of(comm, args);
            icontains(name, "1password".as_bytes()) || is_named(name, "corespotlightd")
                || is_named(name, "managedcorespotlightd") || is_named(
                name,
                "spotlightknowledged",
            ) || is_named(name, "mediaanalysisd") || is_named(name, "photolibraryd") || is_named(
                name,
                "photoanalysisd",
            ) || is_named(name, "sharingd") || is_named(name, "contactsd") || is_named(
                name,
                "finder",
            ) || is_named(name, "loginwindow") || is_named(name, "netnewswire") || is_named(
                name,
                "preview",
            ) || is_named(name, "things3")
        },
    }
}

/// Programs that are never shown.
#[verifier::opaque]
pub open spec fn noise_name(name: Seq<u8>) -> bool {
    ||| has_letters(name, utf8_of("chrome"))
    ||| has_letters(name, utf8_of("widget"))
    ||| starts(name, utf8_of("com.apple."))
    ||| starts(name, utf8_of("amazon-"))
    ||| named(name, "ssm-session-worker")
    ||| named(name, "spotlight")
    ||| named(name, "springboard")
    ||| named(name, "newstoday2")
    ||| named(name, "newsscoringservice")
    ||| named(name, "screentimeagent")
    ||| named(name, "appleaccountd")
    ||| named(name, "siriinferenced")
    ||| named(name, "siriactionsd")
    ||| named(name, "callservicesd")
    ||| named(name, "calaccessd")
    ||| named(name, "amsengagementd")
    ||| named(name, "chronod")
    ||| named(name, "remindd")
    ||| named(name, "routined")
    ||| named(name, "textunderstandingd")
    ||| named(name, "corespeechd")
    ||| named(name, "characterpalette")
    ||| ends(name, utf8_of("BlastDoorService"))
}

/// Whether a process is never shown.
pub fn is_noise(comm: &[u8], args: &[&[u8]]) -> (r: bool)
    ensures
        r == noise_name(program_name(comm@, contents(args@))),
{
    reveal(noise_name);
    let name: &[u8] = name_of(comm, args);
    icontains(name, "chrome".as_bytes()) || icontains(name, "widget".as_bytes()) || starts_with(
        name,
        "com.apple.".as_bytes(),
    ) || starts_with(name, "amazon-".as_bytes()) || is_named(name, "ssm-session-worker")
        || is_named(name, "spotlight") || is_named(name, "springboard") || is_named(
        name,
        "newstoday2",
    ) || is_named(name, "newsscoringservice") || is_named(name, "screentimeagent") || is_named(
        name,
        "appleaccountd",
    ) || is_named(name, "siriinferenced") || is_named(name, "siriactionsd") || is_named(
        name,
        "callservicesd",
    ) || is_named(name, "calaccessd") || is_named(name, "amsengagementd") || is_named(
        name,
        "chronod",
    ) || is_named(name, "remindd") || is_named(name, "routined") || is_named(
        name,
        "textunderstandingd",
    ) || is_named(name, "corespeechd") || is_named(name, "characterpalette") || ends_with(
        name,
        "BlastDoorService".as_bytes(),
    )
}

/// `lean` or `lake`.
pub open spec fn lean_or_lake(s: Seq<u8>) -> bool {
    s == utf8_of("lean") || s == utf8_of("lake")
}

/// Whether `s` is `lean` or `lake`.
pub(crate) fn is_tool(s: &[u8]) -> (r: bool)
    ensures
        r == lean_or_lake(s@),
{
    eq_bytes(s, "lean".as_bytes()) || eq_bytes(s, "lake".as_bytes())
}

/// The process is the prover or its build tool.
pub open spec fn always_shown(comm: Seq<u8>, args: Seq<Seq<u8>>) -> bool {
    lean_or_lake(comm) || (args.len() > 0 && lean_or_lake(base_of(args[0])))
}

/// Whether the process is the prover or its build tool.
pub fn is_lean_or_lake(comm: &[u8], args: &[&[u8]]) -> (r: bool)
    ensures
        r == always_shown(comm@, contents(args@)),
{
    if is_tool(comm) {
        return true;
    }
    if args.len() == 0 {
        return false;
    }
    assert(contents(args@)[0] == args@[0]@);
    is_tool(basename(args[0]))
}

/// `s` holds a word of the prover's world.
pub open spec fn lean_keyword(s: Seq<u8>) -> bool {
    has_letters(s, utf8_of("lean")) || has_letters(s, utf8_of("lake")) || has_letters(
        s,
        utf8_of("certificate"),
    )
}

/// Whether `s` holds a word of the prover's world.
pub fn has_lean_keyword(s: &[u8]) -> (r: bool)
    ensures
        r == lean_keyword(s@),
{
    icontains(s, "lean".as_bytes()) || icontains(s, "lake".as_bytes()) || icontains(
        s,
        "certificate".as_bytes(),
    )
}

/// The process's name or one of its first three arguments holds such a word.
pub open spec fn lean_related(comm: Seq<u8>, args: Seq<Seq<u8>>) -> bool {
    lean_keyword(comm) || exists|i: int| 0 <= i < 3 && i < args.len() && lean_keyword(#[trigger] args[i])
}

/// Whether the process belongs to the prover's world.
pub fn is_lean_related(comm: &[u8], args: &[&[u8]]) -> (r: bool)
    ensures
        r == lean_related(comm@, contents(args@)),
{
    let ghost all = contents(args@);
    if has_lean_keyword(comm) {
        return true;
    }
    let n: usize = if args.len() < 3 { args.len() } else { 3 };
    for i in 0..n
        invariant
            n <= args@.len(),
            n <= 3,
            all == contents(args@),
            forall|j: int| 0 <= j < i ==> !lean_keyword(#[trigger] all[j]),
            n == 3 || n == args@.len(),
            !lean_keyword(comm@),
    {
        assert(all[i as int] == args@[i as int]@);
        if has_lean_keyword(args[i]) {
            return true;
        }
    }
    false
}

/// `base` is the name of an interpreter; Python's may carry a version.
pub open spec fn interpreter_name(base: Seq<u8>) -> bool {
    ||| base.len() >= 6 && named(base.take(6), "python")
    ||| named(base, "ruby")
    ||| named(base, "node")
    ||| named(base, "perl")
    ||| named(base, "lua")
}

/// Whether `base` is the name of an interpreter.
pub fn is_interpreter(base: &[u8]) -> (r: bool)
    ensures
        r == interpreter_name(base@),
{
    if base.len() >= 6 && is_named(vstd::slice::slice_subrange(base, 0, 6), "python") {
        return true;
    }
    is_named(base, "ruby") || is_named(base, "node") || is_named(base, "perl") || is_named(
        base,
        "lua",
    )
}

/// `arg` is a flag.
pub open spec fn is_flag(arg: Seq<u8>) -> bool {
    arg.len() > 0 && arg[0] == 0x2d
}

/// `arg` is a flag of an interpreter that takes the next argument as its
/// value.
pub open spec fn takes_value(arg: Seq<u8>) -> bool {
    ||| arg.len() == 2 && (arg[1] == 0x63 || arg[1] == 0x6d || arg[1] == 0x57 || arg[1] == 0x58
        || arg[1] == 0x51)
    ||| arg == utf8_of("--check-hash-based-pycs")
}

/// The first argument from `i` on that is neither a flag nor a flag's value,
/// without its path.
pub open spec fn script_from(args: Seq<Seq<u8>>, i: int) -> Option<Seq<u8>>
    decreases args.len() - i,
{
    if i < 0 || i >= args.len() {
        None
    } else if is_flag(args[i]) {
        if takes_value(args[i]) && i + 2 <= args.len() {
            script_from(args, i + 2)
        } else {
            script_from(args, i + 1)
        }
    } else {
        Some(base_of(args[i]))
    }
}

/// The script that an interpreter runs.
pub fn find_script_arg<'a>(args: &[&'a [u8]]) -> (r: Option<&'a [u8]>)
    ensures
        match r {
            Some(s) => script_from(contents(args@), 1) == Some(s@),
            None => script_from(contents(args@), 1) is None,
        },
{
    let ghost all = contents(args@);
    let n: usize = args.len();
    let mut i: usize = 1;
    while i < n
        invariant
            1 <= i,
            n == args@.len(),
            all == contents(args@),
            script_from(all, 1) == script_from(all, i as int),
        decreases n - i,
    {
        let arg: &'a [u8] = args[i];
        assert(all[i as int] == arg@);
        if arg.len() > 0 && arg[0] == 0x2d {
            let short: bool = arg.len() == 2 && (arg[1] == 0x63 || arg[1] == 0x6d || arg[1] == 0x57
                || arg[1] == 0x58 || arg[1] == 0x51);
            if (short || eq_bytes(arg, "--check-hash-based-pycs".as_bytes())) && n - i >= 2 {
                i = i + 2;
            } else {
                i = i + 1;
            }
        } else {
            return Some(basename(arg));
        }
    }
    None
}

/// `arg` names a C or C++ source.
pub open spec fn source_name(arg: Seq<u8>) -> bool {
    ||| ends(arg, utf8_of(".cc"))
    ||| ends(arg, utf8_of(".cpp"))
    ||| ends(arg, utf8_of(".cxx"))
    ||| ends(arg, utf8_of(".c"))
    ||| ends(arg, utf8_of(".C"))
    ||| ends(arg, utf8_of(".c++"))
}

/// The first argument from `i` on that names a source, without its path.
pub open spec fn source_from(args: Seq<Seq<u8>>, i: int) -> Option<Seq<u8>>
    decreases args.len() - i,
{
    if i < 0 || i >= args.len() {
        None
    } else if !is_flag(args[i]) && source_name(args[i]) {
        Some(base_of(args[i]))
    } else {
        source_from(args, i + 1)
    }
}

/// The source that a compiler works on.
pub fn find_cc_source<'a>(args: &[&'a [u8]]) -> (r: Option<&'a [u8]>)
    ensures
        match r {
            Some(s) => source_from(contents(args@), 0) == Some(s@),
            None => source_from(contents(args@), 0) is None,
        },
{
    let ghost all = contents(args@);
    let n: usize = args.len();
    let mut i: usize = 0;
    while i < n
        invariant
            i <= n == args@.len(),
            all == contents(args@),
            source_from(all, 0) == source_from(all, i as int),
        decreases n - i,
    {
        let arg: &'a [u8] = args[i];
        assert(all[i as int] == arg@);
        let flag: bool = arg.len() > 0 && arg[0] == 0x2d;
        if !flag && (ends_with(arg, ".cc".as_bytes()) || ends_with(arg, ".cpp".as_bytes())
            || ends_with(arg, ".cxx".as_bytes()) || ends_with(arg, ".c".as_bytes()) || ends_with(
            arg,
            ".C".as_bytes(),
        ) || ends_with(arg, ".c++".as_bytes())) {
            return Some(basename(arg));
        }
        i = i + 1;
    }
    None
}

/// One of `args` holds `part`, but for the case of letters.
pub open spec fn any_has(args: Seq<Seq<u8>>, part: &str) -> bool {
    exists|i: int| 0 <= i < args.len() && has_letters(#[trigger] args[i], utf8_of(part))
}

/// Whether one of `args` holds `part`.
fn any_arg(args: &[&[u8]], part: &'static str) -> (r: bool)
    ensures
        r == any_has(contents(args@), part),
{
    let ghost all = contents(args@);
    let n: usize = args.len();
    for i in 0..n
        invariant
            n == args@.len(),
            all == contents(args@),
            forall|j: int| 0 <= j < i ==> !has_letters(#[trigger] all[j], utf8_of(part)),
    {
        assert(all[i as int] == args@[i as int]@);
        if icontains(args[i], part.as_bytes()) {
            return true;
        }
    }
    false
}

/// The first argument from `i` on with a word of the prover's world, without
/// its path.
pub open spec fn keyword_from(args: Seq<Seq<u8>>, i: int) -> Option<Seq<u8>>
    decreases args.len() - i,
{
    if i < 0 || i >= args.len() {
        None
    } else if lean_keyword(args[i]) {
        Some(base_of(args[i]))
    } else {
        keyword_from(args, i + 1)
    }
}

/// What a process of the prover's world is called.
pub open spec fn label_of(args: Seq<Seq<u8>>) -> Seq<u8> {
    if any_has(args, "--worker") {
        utf8_of("lean")
    } else if any_has(args, "--server") {
        utf8_of("lean --server")
    } else if any_has(args, "lake") && any_has(args, "serve") {
        utf8_of("lake serve")
    } else if any_has(args, "lean.rs") || any_has(args, "debug/lean") {
        utf8_of("lean-mcp")
    } else if any_has(args, "certificate") {
        utf8_of("certificate")
    } else {
        match keyword_from(args, 0) {
            Some(s) => s,
            None => if args.len() > 0 {
                base_of(args[0])
            } else {
                utf8_of("?")
            },
        }
    }
}

/// What a process of the prover's world is called.
pub fn lean_label<'a>(args: &[&'a [u8]]) -> (r: &'a [u8])
    ensures
        r@ == label_of(contents(args@)),
{
    let ghost all = contents(args@);
    if any_arg(args, "--worker") {
        return "lean".as_bytes();
    }
    if any_arg(args, "--server") {
        return "lean --server".as_bytes();
    }
    if any_arg(args, "lake") && any_arg(args, "serve") {
        return "lake serve".as_bytes();
    }
    if any_arg(args, "lean.rs") || any_arg(args, "debug/lean") {
        return "lean-mcp".as_bytes();
    }
    if any_arg(args, "certificate") {
        return "certificate".as_bytes();
    }
    let n: usize = args.len();
    let mut i: usize = 0;
    while i < n
        invariant
            i <= n == args@.len(),
            all == contents(args@),
            !any_has(all, "--worker"),
            !any_has(all, "--server"),
            !(any_has(all, "lake") && any_has(all, "serve")),
            !any_has(all, "lean.rs"),
            !any_has(all, "debug/lean"),
            !any_has(all, "certificate"),
            keyword_from(all, 0) == keyword_from(all, i as int),
        decreases n - i,
    {
        assert(all[i as int] == args@[i as int]@);
        if has_lean_keyword(args[i]) {
            return basename(args[i]);
        }
        i = i + 1;
    }
    if n > 0 {
        assert(all[0] == args@[0]@);
        basename(args[0])
    } else {
        "?".as_bytes()
    }
}

/// `arg` without a leading `file://`.
pub open spec fn plain_path(arg: Seq<u8>) -> Seq<u8> {
    if starts(arg, utf8_of("file://")) {
        arg.skip(utf8_of("file://").len() as int)
    } else {
        arg
    }
}

/// A path within the project, or else the file's name.
pub open spec fn short_path(path: Seq<u8>) -> Seq<u8> {
    match last_match(path, utf8_of("/AKS/"), path.len() - utf8_of("/AKS/").len()) {
        Some(i) => path.skip(i as int + 1),
        None => base_of(path),
    }
}

/// `arg` is the name of a module: no flag, no path, and an upper-case letter
/// before its first dot.
pub open spec fn module_name(arg: Seq<u8>) -> bool {
    !is_flag(arg) && !arg.contains(0x2f) && arg.contains(0x2e) && 0x41 <= arg[0] <= 0x5a
}

/// The file or module that `arg` names.
pub open spec fn lean_file_of(arg: Seq<u8>) -> Option<Seq<u8>> {
    if ends(plain_path(arg), utf8_of(".lean")) {
        Some(short_path(plain_path(arg)))
    } else if module_name(arg) {
        Some(arg)
    } else {
        None
    }
}

/// The file or module that the first argument from `i` on names that names
/// one.
pub open spec fn lean_file_from(args: Seq<Seq<u8>>, i: int) -> Option<Seq<u8>>
    decreases args.len() - i,
{
    if i < 0 || i >= args.len() {
        None
    } else {
        match lean_file_of(args[i]) {
            Some(s) => Some(s),
            None => lean_file_from(args, i + 1),
        }
    }
}

/// Whether `b` occurs in `s`.
fn has_byte(s: &[u8], b: u8) -> (r: bool)
    ensures
        r == s@.contains(b),
{
    for i in 0..s.len()
        invariant
            forall|j: int| 0 <= j < i ==> s@[j] != b,
    {
        if s[i] == b {
            assert(s@[i as int] == b);
            return true;
        }
    }
    false
}

/// The file or module that `arg` names.
fn lean_file<'a>(arg: &'a [u8]) -> (r: Option<&'a [u8]>)
    ensures
        match r {
            Some(s) => lean_file_of(arg@) == Some(s@),
            None => lean_file_of(arg@) is None,
        },
{
    let scheme: &'static [u8] = "file://".as_bytes();
    let path: &'a [u8] = if starts_with(arg, scheme) {
        vstd::slice::slice_subrange(arg, scheme.len(), arg.len())
    } else {
        arg
    };
    assert(path@ =~= plain_path(arg@));
    if ends_with(path, ".lean".as_bytes()) {
        proof {
            broadcast use vstd::string::is_ascii_spec_bytes;

            reveal_strlit("/AKS/");
            assert(vstd::string::is_ascii("/AKS/"));
            assert(utf8_of("/AKS/").len() == 5);
        }
        return match rfind_bytes(path, "/AKS/".as_bytes()) {
            Some(i) => {
                assert(i + 5 <= path.len());
                assert(path@.subrange(i + 1, path@.len() as int) =~= path@.skip(i + 1));
                Some(vstd::slice::slice_subrange(path, i + 1, path.len()))
            },
            None => Some(basename(path)),
        };
    }
    let flag: bool = arg.len() > 0 && arg[0] == 0x2d;
    if !flag && !has_byte(arg, 0x2f) && has_byte(arg, 0x2e) {
        assert(arg@.len() > 0) by {
            let k = choose|k: int| 0 <= k < arg@.len() && arg@[k] == 0x2e;
        }
        if 0x41 <= arg[0] && arg[0] <= 0x5a {
            return Some(arg);
        }
    }
    None
}

/// The file or module that the arguments name.
pub fn find_lean_file<'a>(args: &[&'a [u8]]) -> (r: Option<&'a [u8]>)
    ensures
        match r {
            Some(s) => lean_file_from(contents(args@), 0) == Some(s@),
            None => lean_file_from(contents(args@), 0) is None,
        },
{
    let ghost all = contents(args@);
    let n: usize = args.len();
    let mut i: usize = 0;
    while i < n
        invariant
            i <= n == args@.len(),
            all == contents(args@),
            lean_file_from(all, 0) == lean_file_from(all, i as int),
        decreases n - i,
    {
        assert(all[i as int] == args@[i as int]@);
        match lean_file(args[i]) {
            Some(s) => {
                return Some(s);
            },
            None => {},
        }
        i = i + 1;
    }
    None
}

/// `comm` is a compiler's inner program.
pub open spec fn is_compiler(comm: Seq<u8>) -> bool {
    comm == utf8_of("cc1plus") || comm == utf8_of("cc1")
}

/// What is shown for a process outside the prover's world: an interpreter's
/// script, or else the program's name.
pub open spec fn plain_command(comm: Seq<u8>, args: Seq<Seq<u8>>) -> Seq<u8> {
    if args.len() == 0 {
        comm
    } else {
        let base = base_of(args[0]);
        match script_from(args, 1) {
            Some(s) if interpreter_name(base) => s,
            _ => base,
        }
    }
}

/// What is shown as a process's command.
#[verifier::opaque]
pub open spec fn shown_command(comm: Seq<u8>, args: Seq<Seq<u8>>, related: bool) -> Seq<u8> {
    if is_compiler(comm) && source_from(args, 0) is Some {
        comm + utf8_of(" ") + source_from(args, 0)->0
    } else if !related {
        plain_command(comm, args)
    } else {
        match lean_file_from(args, 0) {
            Some(f) => label_of(args) + utf8_of(" ") + f,
            None => label_of(args),
        }
    }
}

/// What is shown as a process's command.
pub fn build_display(comm: &[u8], args: &[&[u8]], is_related: bool) -> (r: Vec<u8>)
    ensures
        r@ == shown_command(comm@, contents(args@), is_related),
{
    reveal(shown_command);
    let ghost all = contents(args@);
    let mut out: Vec<u8> = Vec::new();
    if eq_bytes(comm, "cc1plus".as_bytes()) || eq_bytes(comm, "cc1".as_bytes()) {
        match find_cc_source(args) {
            Some(src) => {
                out.extend_from_slice(comm);
                out.extend_from_slice(" ".as_bytes());
                out.extend_from_slice(src);
                assert(out@ =~= shown_command(comm@, all, is_related));
                return out;
            },
            None => {},
        }
    }
    if !is_related {
        if args.len() == 0 {
            out.extend_from_slice(comm);
            assert(out@ =~= comm@);
            return out;
        }
        assert(all[0] == args@[0]@);
        let base: &[u8] = basename(args[0]);
        if is_interpreter(base) {
            match find_script_arg(args) {
                Some(script) => {
                    out.extend_from_slice(script);
                    assert(out@ =~= script@);
                    return out;
                },
                None => {},
            }
        }
        out.extend_from_slice(base);
        assert(out@ =~= base@);
        return out;
    }
    out.extend_from_slice(lean_label(args));
    assert(out@ =~= label_of(all));
    match find_lean_file(args) {
        Some(f) => {
            out.extend_from_slice(" ".as_bytes());
            out.extend_from_slice(f);
        },
        None => {},
    }
    out
}

/// Lays down what is shown as a process's command.
pub fn build_display_into(
    out: &mut FBuilder<'_, '_, u8>,
    comm: &[u8],
    args: &[&[u8]],
    is_related: bool,
)
    requires
        old(out).takes(shown_command(comm@, contents(args@), is_related).len()),
    ensures
        final(out)@ == old(out)@ + shown_command(comm@, contents(args@), is_related),
        final(out).at() == old(out).at(),
        final(out).wf(),
{
    let text: Vec<u8> = build_display(comm, args, is_related);
    proof {
        crate::layout::lemma_bytes_add::<u8>(old(out)@.len(), text@.len());
    }
    out.extend_from_slice(text.as_slice());
}

/// The name of a file is what stands behind its last slash: it holds no slash,
/// it ends the path, and a slash stands before it unless it is all of the path.
pub proof fn law_name_is_behind_the_last_slash(s: Seq<u8>)
    ensures
        base_of(s).len() <= s.len(),
        s.skip(s.len() - base_of(s).len()) == base_of(s),
        !base_of(s).contains(0x2f),
        base_of(s).len() < s.len() ==> s[s.len() - base_of(s).len() - 1] == 0x2f,
{
    lemma_after_slash(s);
    let n = after_slash(s);
    assert(s.skip(s.len() - base_of(s).len()) =~= base_of(s));
    assert forall|i: int| 0 <= i < base_of(s).len() implies (#[trigger] base_of(s)[i]) != 0x2f by {
        assert(s[n + i] != 0x2f);
    }
}

proof fn lemma_after_slash(s: Seq<u8>)
    ensures
        after_slash(s) <= s.len(),
        forall|i: int| after_slash(s) <= i < s.len() ==> (#[trigger] s[i]) != 0x2f,
        after_slash(s) > 0 ==> s[after_slash(s) - 1] == 0x2f,
    decreases s.len(),
{
    if s.len() > 0 && s.last() != 0x2f {
        let less = s.drop_last();
        lemma_after_slash(less);
        assert forall|i: int| after_slash(s) <= i < s.len() implies (#[trigger] s[i]) != 0x2f by {
            if i < less.len() {
                assert(less[i] == s[i]);
            }
        }
    }
}

/// The last place of a part in a text: it occurs there, and nowhere behind.
proof fn lemma_last_match(s: Seq<u8>, part: Seq<u8>, top: int)
    ensures
        match last_match(s, part, top) {
            Some(i) => i <= top && occurs_at(s, part, i as int) && forall|j: int|
                i < j <= top ==> !#[trigger] occurs_at(s, part, j),
            None => forall|j: int| 0 <= j <= top ==> !#[trigger] occurs_at(s, part, j),
        },
    decreases top + 1,
{
    if top >= 0 && !occurs_at(s, part, top) {
        lemma_last_match(s, part, top - 1);
    }
}

/// Where a part is found from the end, it stands, and it stands nowhere behind;
/// where it is not found, it stands nowhere.
pub proof fn law_last_place(s: Seq<u8>, part: Seq<u8>, j: int)
    requires
        0 <= j && j + part.len() <= s.len(),
        s.subrange(j, j + part.len()) == part,
    ensures
        match last_match(s, part, s.len() - part.len()) {
            Some(i) => j <= i && i + part.len() <= s.len() && s.subrange(i as int, i + part.len() as int)
                == part,
            None => false,
        },
{
    lemma_last_match(s, part, s.len() - part.len());
    assert(occurs_at(s, part, j));
}

proof fn lemma_lean_lits()
    ensures
        utf8_of("file://").len() == 7,
        utf8_of("file://")[6] == 0x2f,
        utf8_of("/AKS/").len() == 5,
        utf8_of("/AKS/")[0] == 0x2f,
        utf8_of(".lean").len() == 5,
        utf8_of(".lean")[0] == 0x2e,
        forall|i: int| 0 <= i < 5 ==> (#[trigger] utf8_of(".lean")[i]) != 0x2f,
        utf8_of(" ") == seq![0x20u8],
{
    broadcast use vstd::string::is_ascii_spec_bytes;

    reveal_strlit("file://");
    reveal_strlit("/AKS/");
    reveal_strlit(".lean");
    reveal_strlit(" ");
    assert(vstd::string::is_ascii("file://") && vstd::string::is_ascii("/AKS/")
        && vstd::string::is_ascii(".lean") && vstd::string::is_ascii(" "));
    assert(utf8_of(" ") =~= seq![0x20u8]);
}

/// An argument names a file of the prover exactly if it ends with `.lean`; else
/// it names a module exactly if it holds a dot and no slash and starts with a
/// capital letter.
pub proof fn law_what_names_a_lean_file(arg: Seq<u8>)
    ensures
        lean_file_of(arg) is Some <==> {
            ||| arg.len() >= 5 && arg.skip(arg.len() - 5) == utf8_of(".lean")
            ||| arg.contains(0x2e) && !arg.contains(0x2f) && 0x41 <= arg[0] <= 0x5a
        },
{
    lemma_lean_lits();
    lemma_plain_end(arg);
    if arg.contains(0x2e) {
        let k = choose|k: int| 0 <= k < arg.len() && arg[k] == 0x2e;
        assert(arg.len() > 0);
    }
}

/// A leading scheme does not change how a path ends.
proof fn lemma_plain_end(arg: Seq<u8>)
    ensures
        ends(plain_path(arg), utf8_of(".lean")) == ends(arg, utf8_of(".lean")),
{
    lemma_lean_lits();
    let lean = utf8_of(".lean");
    let scheme = utf8_of("file://");
    if starts(arg, scheme) {
        let path = arg.skip(7);
        assert(arg.take(7)[6] == arg[6]);
        assert(arg[6] == 0x2f);
        if path.len() >= 5 {
            assert(path.skip(path.len() - 5) =~= arg.skip(arg.len() - 5));
        } else if arg.len() >= 5 && arg.skip(arg.len() - 5) == lean {
            let at = 6 - (arg.len() - 5);
            assert(arg.skip(arg.len() - 5)[at] == arg[6]);
            assert(lean[at] != 0x2f);
        }
    }
}

/// What is shown of a file of the prover: the end of its path, from the last
/// `/AKS/` on if there is one, and else its name alone.
proof fn lemma_lean_file(arg: Seq<u8>, path: Seq<u8>)
    requires
        arg.len() >= 5 && arg.skip(arg.len() - 5) == utf8_of(".lean"),
        path == (if starts(arg, utf8_of("file://")) {
            arg.skip(7)
        } else {
            arg
        }),
    ensures
        lean_file_of(arg) is Some,
        ({
            let f = lean_file_of(arg)->0;
            &&& f.len() <= path.len() && path.skip(path.len() - f.len()) == f
            &&& (forall|j: int| !#[trigger] occurs_at(path, utf8_of("/AKS/"), j)) ==> f == base_of(path)
            &&& forall|j: int| #[trigger]
                occurs_at(path, utf8_of("/AKS/"), j) ==> f.len() < path.len() && j <= path.len()
                    - f.len() - 1 && occurs_at(path, utf8_of("/AKS/"), path.len() - f.len() - 1)
        }),
{
    lemma_lean_lits();
    lemma_plain_end(arg);
    assert(path == plain_path(arg));
    let aks = utf8_of("/AKS/");
    let f = short_path(path);
    lemma_last_match(path, aks, path.len() - aks.len());
    law_name_is_behind_the_last_slash(path);
    match last_match(path, aks, path.len() - aks.len()) {
        Some(i) => {
            assert(path.skip(path.len() - f.len()) =~= f);
        },
        None => {},
    }
}

/// What is shown of a process of the prover's world that works on a file: its
/// label, a blank, and the first file or module that its arguments name. Of a
/// path the end is shown: what stands behind the last `/AKS`, or else the
/// file's name. A compiler with a source is another matter.
pub proof fn law_prover_shows_its_file(comm: Seq<u8>, args: Seq<Seq<u8>>, i: int, path: Seq<u8>) -> (f:
    Seq<u8>)
    requires
        !(is_compiler(comm) && source_from(args, 0) is Some),
        0 <= i < args.len(),
        forall|j: int| 0 <= j < i ==> lean_file_of(#[trigger] args[j]) is None,
        args[i].len() >= 5 && args[i].skip(args[i].len() - 5) == utf8_of(".lean"),
        path == (if starts(args[i], utf8_of("file://")) {
            args[i].skip(7)
        } else {
            args[i]
        }),
    ensures
        shown_command(comm, args, true) == label_of(args) + seq![0x20u8] + f,
        f.len() >= 5 && f.skip(f.len() - 5) == utf8_of(".lean"),
        f.len() <= path.len() && path.skip(path.len() - f.len()) == f,
        (forall|j: int| !#[trigger] occurs_at(path, utf8_of("/AKS/"), j)) ==> f == base_of(path),
        forall|j: int| #[trigger]
            occurs_at(path, utf8_of("/AKS/"), j) ==> f.len() < path.len() && j <= path.len()
                - f.len() - 1 && occurs_at(path, utf8_of("/AKS/"), path.len() - f.len() - 1),
{
    reveal(shown_command);
    lemma_lean_lits();
    lemma_lean_file(args[i], path);
    lemma_first_lean_file(args, 0, i);
    let f = lean_file_of(args[i])->0;
    lemma_file_end(args[i], path, f);
    f
}

/// What is shown of a path still ends as the path does.
proof fn lemma_file_end(arg: Seq<u8>, path: Seq<u8>, f: Seq<u8>)
    requires
        arg.len() >= 5 && arg.skip(arg.len() - 5) == utf8_of(".lean"),
        path == (if starts(arg, utf8_of("file://")) {
            arg.skip(7)
        } else {
            arg
        }),
        lean_file_of(arg) == Some(f),
    ensures
        f.len() >= 5 && f.skip(f.len() - 5) == utf8_of(".lean"),
{
    lemma_lean_lits();
    lemma_plain_end(arg);
    let lean = utf8_of(".lean");
    let aks = utf8_of("/AKS/");
    assert(path == plain_path(arg));
    assert(path.len() >= 5 && path.skip(path.len() - 5) == lean);
    lemma_lean_file(arg, path);
    lemma_last_match(path, aks, path.len() - aks.len());
    law_name_is_behind_the_last_slash(path);
    if f.len() < path.len() {
        let at = path.len() - f.len() - 1;
        assert(path[at] == 0x2f) by {
            match last_match(path, aks, path.len() - aks.len()) {
                Some(m) => {
                    assert(path.subrange(m as int, m as int + 5)[0] == path[m as int]);
                },
                None => {},
            }
        }
        if f.len() < 5 {
            assert(path.skip(path.len() - 5)[at - (path.len() - 5)] == path[at]);
            assert(lean[at - (path.len() - 5)] != 0x2f);
        }
    }
    assert(f.skip(f.len() - 5) =~= path.skip(path.len() - 5));
}

/// The first argument that names a file is found.
proof fn lemma_first_lean_file(args: Seq<Seq<u8>>, from: int, i: int)
    requires
        0 <= from <= i < args.len(),
        forall|j: int| from <= j < i ==> lean_file_of(#[trigger] args[j]) is None,
        lean_file_of(args[i]) is Some,
    ensures
        lean_file_from(args, from) == lean_file_of(args[i]),
    decreases i - from,
{
    if from < i {
        assert(lean_file_of(args[from]) is None);
        lemma_first_lean_file(args, from + 1, i);
    }
}

proof fn lemma_no_lean_file(args: Seq<Seq<u8>>, from: int)
    requires
        0 <= from,
        forall|j: int| from <= j < args.len() ==> lean_file_of(#[trigger] args[j]) is None,
    ensures
        lean_file_from(args, from) is None,
    decreases args.len() - from,
{
    if from < args.len() {
        lemma_no_lean_file(args, from + 1);
    }
}

/// A module is shown by its name, behind the label; a process of the prover's
/// world whose arguments name neither shows its label alone.
pub proof fn law_prover_shows_its_module(comm: Seq<u8>, args: Seq<Seq<u8>>)
    requires
        !(is_compiler(comm) && source_from(args, 0) is Some),
    ensures
        forall|i: int|
            0 <= i < args.len() && (forall|j: int|
                0 <= j < i ==> lean_file_of(#[trigger] args[j]) is None) && !ends(
                #[trigger] args[i],
                utf8_of(".lean"),
            ) && args[i].contains(0x2e) && !args[i].contains(0x2f) && 0x41 <= args[i][0] <= 0x5a
                ==> shown_command(comm, args, true) == label_of(args) + seq![0x20u8] + args[i],
        (forall|j: int| 0 <= j < args.len() ==> lean_file_of(#[trigger] args[j]) is None)
            ==> shown_command(comm, args, true) == label_of(args),
{
    reveal(shown_command);
    lemma_lean_lits();
    assert forall|i: int|
        0 <= i < args.len() && (forall|j: int|
            0 <= j < i ==> lean_file_of(#[trigger] args[j]) is None) && !ends(
            #[trigger] args[i],
            utf8_of(".lean"),
        ) && args[i].contains(0x2e) && !args[i].contains(0x2f) && 0x41 <= args[i][0]
            <= 0x5a implies shown_command(comm, args, true) == label_of(args) + seq![0x20u8]
        + args[i] by {
        lemma_plain_end(args[i]);
        let k = choose|k: int| 0 <= k < args[i].len() && args[i][k] == 0x2e;
        assert(args[i].len() > 0);
        lemma_first_lean_file(args, 0, i);
    }
    if forall|j: int| 0 <= j < args.len() ==> lean_file_of(#[trigger] args[j]) is None {
        lemma_no_lean_file(args, 0);
    }
}

/// A compiler shows the first source that its arguments name, by its name
/// alone, behind its own.
pub proof fn law_compiler_shows_its_source(comm: Seq<u8>, args: Seq<Seq<u8>>, i: int, related: bool)
    requires
        comm == utf8_of("cc1") || comm == utf8_of("cc1plus"),
        0 <= i < args.len(),
        forall|j: int| 0 <= j < i ==> !source_name(#[trigger] args[j]) || args[j][0] == 0x2d,
        args[i][0] != 0x2d,
        source_name(args[i]),
    ensures
        shown_command(comm, args, related) == comm + seq![0x20u8] + base_of(args[i]),
{
    reveal(shown_command);
    lemma_lean_lits();
    lemma_source_long(args[i]);
    lemma_first_source(args, 0, i);
}

proof fn lemma_source_long(arg: Seq<u8>)
    requires
        source_name(arg),
    ensures
        arg.len() > 0,
{
    broadcast use vstd::string::is_ascii_spec_bytes;

    reveal_strlit(".cc");
    reveal_strlit(".cpp");
    reveal_strlit(".cxx");
    reveal_strlit(".c");
    reveal_strlit(".C");
    reveal_strlit(".c++");
    assert(vstd::string::is_ascii(".cc") && vstd::string::is_ascii(".cpp") && vstd::string::is_ascii(
        ".cxx",
    ) && vstd::string::is_ascii(".c") && vstd::string::is_ascii(".C") && vstd::string::is_ascii(
        ".c++",
    ));
}

proof fn lemma_first_source(args: Seq<Seq<u8>>, from: int, i: int)
    requires
        0 <= from <= i < args.len(),
        forall|j: int| from <= j < i ==> !source_name(#[trigger] args[j]) || args[j][0] == 0x2d,
        args[i].len() > 0 && args[i][0] != 0x2d,
        source_name(args[i]),
    ensures
        source_from(args, from) == Some(base_of(args[i])),
    decreases i - from,
{
    if from < i {
        assert(!source_name(args[from]) || args[from][0] == 0x2d);
        if source_name(args[from]) {
            lemma_source_long(args[from]);
        }
        lemma_first_source(args, from + 1, i);
    }
}

/// What is a source: what ends with one of the usual endings of C and C++.
pub proof fn law_source_endings(stem: Seq<u8>)
    ensures
        source_name(stem + utf8_of(".c")),
        source_name(stem + utf8_of(".cc")),
        source_name(stem + utf8_of(".cpp")),
        source_name(stem + utf8_of(".cxx")),
        source_name(stem + utf8_of(".c++")),
        source_name(stem + utf8_of(".C")),
        !stem.contains(0x2e) ==> !source_name(stem),
{
    assert((stem + utf8_of(".c")).skip(stem.len() as int) =~= utf8_of(".c"));
    assert((stem + utf8_of(".cc")).skip(stem.len() as int) =~= utf8_of(".cc"));
    assert((stem + utf8_of(".cpp")).skip(stem.len() as int) =~= utf8_of(".cpp"));
    assert((stem + utf8_of(".cxx")).skip(stem.len() as int) =~= utf8_of(".cxx"));
    assert((stem + utf8_of(".c++")).skip(stem.len() as int) =~= utf8_of(".c++"));
    assert((stem + utf8_of(".C")).skip(stem.len() as int) =~= utf8_of(".C"));
    if !stem.contains(0x2e) && source_name(stem) {
        lemma_source_dot(stem);
    }
}

proof fn lemma_source_dot(arg: Seq<u8>)
    requires
        source_name(arg),
    ensures
        arg.contains(0x2e),
{
    broadcast use vstd::string::is_ascii_spec_bytes;

    reveal_strlit(".cc");
    reveal_strlit(".cpp");
    reveal_strlit(".cxx");
    reveal_strlit(".c");
    reveal_strlit(".C");
    reveal_strlit(".c++");
    assert(vstd::string::is_ascii(".cc") && vstd::string::is_ascii(".cpp") && vstd::string::is_ascii(
        ".cxx",
    ) && vstd::string::is_ascii(".c") && vstd::string::is_ascii(".C") && vstd::string::is_ascii(
        ".c++",
    ));
    let n = if ends(arg, utf8_of(".cc")) {
        3
    } else if ends(arg, utf8_of(".cpp")) || ends(arg, utf8_of(".cxx")) || ends(
        arg,
        utf8_of(".c++"),
    ) {
        4
    } else {
        2int
    };
    assert(arg.skip(arg.len() - n)[0] == arg[arg.len() - n]);
    assert(arg[arg.len() - n] == 0x2e);
}

/// Outside the prover's world an interpreter shows the script that it runs, by
/// its name alone: its first argument that is no flag and no flag's value. All
/// else shows the name of the program, or what the system calls it if there
/// are no arguments.
pub proof fn law_others_show_script_or_program(comm: Seq<u8>, args: Seq<Seq<u8>>)
    requires
        !(is_compiler(comm) && source_from(args, 0) is Some),
    ensures
        args.len() == 0 ==> shown_command(comm, args, false) == comm,
        args.len() > 0 && !interpreter_name(base_of(args[0])) ==> shown_command(comm, args, false)
            == base_of(args[0]),
        args.len() == 1 ==> shown_command(comm, args, false) == base_of(args[0]),
        args.len() > 1 && interpreter_name(base_of(args[0])) && !(args[1].len() > 0 && args[1][0]
            == 0x2d) ==> shown_command(comm, args, false) == base_of(args[1]),
        forall|i: int|
            1 < i < args.len() && interpreter_name(base_of(args[0])) && !(args[i].len() > 0
                && args[i][0] == 0x2d) && (forall|j: int|
                1 <= j < i ==> (#[trigger] args[j]).len() > 2 && args[j][0] == 0x2d && args[j][1]
                    != 0x2d) ==> shown_command(comm, args, false) == base_of(#[trigger] args[i]),
{
    reveal(shown_command);
    if args.len() == 1 {
        assert(script_from(args, 1) is None);
    }
    assert forall|i: int|
        1 < i < args.len() && interpreter_name(base_of(args[0])) && !(args[i].len() > 0
            && args[i][0] == 0x2d) && (forall|j: int|
            1 <= j < i ==> (#[trigger] args[j]).len() > 2 && args[j][0] == 0x2d && args[j][1]
                != 0x2d) implies shown_command(comm, args, false) == base_of(#[trigger] args[i]) by {
        lemma_script(args, 1, i);
    }
}

proof fn lemma_script(args: Seq<Seq<u8>>, from: int, i: int)
    requires
        1 <= from <= i < args.len(),
        !(args[i].len() > 0 && args[i][0] == 0x2d),
        forall|j: int|
            from <= j < i ==> (#[trigger] args[j]).len() > 2 && args[j][0] == 0x2d && args[j][1]
                != 0x2d,
    ensures
        script_from(args, from) == Some(base_of(args[i])),
    decreases i - from,
{
    if from < i {
        assert(args[from].len() > 2 && args[from][0] == 0x2d);
        assert(!takes_value(args[from])) by {
            broadcast use vstd::string::is_ascii_spec_bytes;

            reveal_strlit("--check-hash-based-pycs");
            assert(vstd::string::is_ascii("--check-hash-based-pycs"));
            assert(utf8_of("--check-hash-based-pycs")[1] == 0x2d);
        }
        lemma_script(args, from + 1, i);
    }
}

/// The value of a flag that takes one is not taken for the script.
pub proof fn law_flag_value_is_no_script(args: Seq<Seq<u8>>, flag: u8)
    requires
        args.len() > 3,
        args[1] == seq![0x2du8, flag],
        flag == 0x63 || flag == 0x6d || flag == 0x57 || flag == 0x58 || flag == 0x51,
        !(args[3].len() > 0 && args[3][0] == 0x2d),
    ensures
        script_from(args, 1) == Some(base_of(args[3])),
{
    reveal_with_fuel(script_from, 2);
}

/// What a process of the prover's world is called, by what its arguments hold,
/// in any case of letters: a worker and a server of the prover, its build tool
/// serving, the helper for editors, a certificate; else the first of the
/// prover's words, and else the program.
pub proof fn law_labels(args: Seq<Seq<u8>>, i: int, k: int)
    requires
        0 <= i < args.len(),
        0 <= k < args.len(),
    ensures
        has_letters(args[i], utf8_of("--worker")) ==> label_of(args) == utf8_of("lean"),
        has_letters(args[i], utf8_of("--server")) && !any_has(args, "--worker") ==> label_of(args)
            == utf8_of("lean --server"),
        has_letters(args[i], utf8_of("lake")) && has_letters(args[k], utf8_of("serve")) && !any_has(
            args,
            "--worker",
        ) && !any_has(args, "--server") ==> label_of(args) == utf8_of("lake serve"),
        (has_letters(args[i], utf8_of("lean.rs")) || has_letters(args[i], utf8_of("debug/lean")))
            && !any_has(args, "--worker") && !any_has(args, "--server") && !any_has(args, "serve")
            ==> label_of(args) == utf8_of("lean-mcp"),
        has_letters(args[i], utf8_of("certificate")) && !any_has(args, "--worker") && !any_has(
            args,
            "--server",
        ) && !any_has(args, "serve") && !any_has(args, "lean.rs") && !any_has(args, "debug/lean")
            ==> label_of(args) == utf8_of("certificate"),
        lean_keyword(args[i]) && (forall|j: int| 0 <= j < i ==> !lean_keyword(#[trigger] args[j]))
            && !any_has(args, "--worker") && !any_has(args, "--server") && !any_has(args, "serve")
            && !any_has(args, "lean.rs") && !any_has(args, "debug/lean") && !any_has(
            args,
            "certificate",
        ) ==> label_of(args) == base_of(args[i]),
        !(exists|j: int| 0 <= j < args.len() && lean_keyword(#[trigger] args[j])) && !any_has(
            args,
            "--worker",
        ) && !any_has(args, "--server") ==> label_of(args) == base_of(args[0]) || label_of(args)
            == utf8_of("lean-mcp"),
{
    if lean_keyword(args[i]) && (forall|j: int| 0 <= j < i ==> !lean_keyword(#[trigger] args[j])) {
        lemma_first_keyword(args, 0, i);
    }
    if !(exists|j: int| 0 <= j < args.len() && lean_keyword(#[trigger] args[j])) {
        lemma_no_keyword(args, 0);
        if any_has(args, "lake") {
            let j = choose|j: int| 0 <= j < args.len() && has_letters(#[trigger] args[j], utf8_of("lake"));
            assert(lean_keyword(args[j]));
        }
        if any_has(args, "certificate") {
            let j = choose|j: int|
                0 <= j < args.len() && has_letters(#[trigger] args[j], utf8_of("certificate"));
            assert(lean_keyword(args[j]));
        }
    }
}

proof fn lemma_first_keyword(args: Seq<Seq<u8>>, from: int, i: int)
    requires
        0 <= from <= i < args.len(),
        lean_keyword(args[i]),
        forall|j: int| from <= j < i ==> !lean_keyword(#[trigger] args[j]),
    ensures
        keyword_from(args, from) == Some(base_of(args[i])),
    decreases i - from,
{
    if from < i {
        assert(!lean_keyword(args[from]));
        lemma_first_keyword(args, from + 1, i);
    }
}

proof fn lemma_no_keyword(args: Seq<Seq<u8>>, from: int)
    requires
        0 <= from,
        !(exists|j: int| 0 <= j < args.len() && lean_keyword(#[trigger] args[j])),
    ensures
        keyword_from(args, from) is None,
    decreases args.len() - from,
{
    if from < args.len() {
        assert(!lean_keyword(args[from]));
        lemma_no_keyword(args, from + 1);
    }
}

/// A part stands in a text whatever stands around it, and in any case of
/// letters.
pub proof fn law_part_is_found_anywhere(before: Seq<u8>, part: Seq<u8>, like: Seq<u8>, behind: Seq<u8>)
    requires
        part.len() == like.len(),
        forall|i: int|
            0 <= i < part.len() ==> (#[trigger] part[i] == like[i] || 0x41 <= part[i] <= 0x5a && like[i]
                == part[i] + 0x20 || 0x41 <= like[i] <= 0x5a && part[i] == like[i] + 0x20),
    ensures
        has_letters(before + like + behind, part),
{
    let s = before + like + behind;
    assert(s.subrange(before.len() as int, before.len() as int + part.len()) =~= like);
    assert(letters_at(s, part, before.len() as int));
}

/// A text shorter than a part does not hold it.
pub proof fn law_short_text_holds_no_part(s: Seq<u8>, part: Seq<u8>)
    requires
        s.len() < part.len(),
    ensures
        !has_letters(s, part),
{
}

proof fn lemma_same_part(a: Seq<u8>, b: Seq<u8>, part: Seq<u8>)
    requires
        same_letters(a, b),
        has_letters(a, part),
    ensures
        has_letters(b, part),
{
    let i = choose|i: int| #[trigger] letters_at(a, part, i);
    let x = a.subrange(i, i + part.len());
    let y = b.subrange(i, i + part.len());
    assert forall|k: int| 0 <= k < y.len() implies lower(#[trigger] y[k]) == lower(part[k]) by {
        assert(lower(x[k]) == lower(part[k]));
        assert(lower(a[i + k]) == lower(b[i + k]));
    }
    assert(letters_at(b, part, i));
}

proof fn lemma_same_either_way(a: Seq<u8>, b: Seq<u8>)
    requires
        same_letters(a, b),
    ensures
        same_letters(b, a),
        forall|part: Seq<u8>| #[trigger] has_letters(a, part) == has_letters(b, part),
        forall|lit: &str| #[trigger] named(a, lit) == named(b, lit),
{
    assert forall|i: int| 0 <= i < b.len() implies lower(#[trigger] b[i]) == lower(a[i]) by {
        assert(lower(a[i]) == lower(b[i]));
    }
    assert forall|part: Seq<u8>| #[trigger] has_letters(a, part) == has_letters(b, part) by {
        if has_letters(a, part) {
            lemma_same_part(a, b, part);
        }
        if has_letters(b, part) {
            lemma_same_part(b, a, part);
        }
    }
    assert forall|lit: &str| #[trigger] named(a, lit) == named(b, lit) by {
        let t = utf8_of(lit);
        if named(a, lit) {
            assert forall|i: int| 0 <= i < b.len() implies lower(#[trigger] b[i]) == lower(t[i]) by {
                assert(lower(a[i]) == lower(b[i]));
            }
        }
        if named(b, lit) {
            assert forall|i: int| 0 <= i < a.len() implies lower(#[trigger] a[i]) == lower(t[i]) by {
                assert(lower(a[i]) == lower(b[i]));
            }
        }
    }
}

/// The case of letters does not matter to what holds a word of the prover's
/// world, to what is an interpreter, nor to what keeps memory while it does
/// nothing.
pub proof fn law_case_does_not_matter(a: Seq<u8>, b: Seq<u8>)
    requires
        same_letters(a, b),
    ensures
        lean_keyword(a) == lean_keyword(b),
        interpreter_name(a) == interpreter_name(b),
        idle_noise_name(a) == idle_noise_name(b),
{
    reveal(idle_noise_name);
    lemma_same_either_way(a, b);
    if a.len() >= 6 {
        assert forall|i: int| 0 <= i < 6 implies lower(#[trigger] a.take(6)[i]) == lower(
            b.take(6)[i],
        ) by {
            assert(lower(a[i]) == lower(b[i]));
        }
        lemma_same_either_way(a.take(6), b.take(6));
    }
}

proof fn lemma_found(before: Seq<u8>, part: Seq<u8>, like: Seq<u8>, behind: Seq<u8>)
    requires
        same_letters(like, part),
    ensures
        has_letters(before + like + behind, part),
{
    let s = before + like + behind;
    assert(s.subrange(before.len() as int, before.len() as int + part.len()) =~= like);
    assert(letters_at(s, part, before.len() as int));
}

/// What holds the name of the browser or of widgets in any case of letters,
/// what starts like a system service or a cloud agent and what ends like the
/// mail sandbox is never shown; what holds the name of the password keeper
/// keeps memory while it does nothing.
pub proof fn law_families_of_noise(before: Seq<u8>, like: Seq<u8>, behind: Seq<u8>)
    ensures
        same_letters(like, utf8_of("chrome")) ==> noise_name(before + like + behind),
        same_letters(like, utf8_of("widget")) ==> noise_name(before + like + behind),
        noise_name(utf8_of("com.apple.") + behind),
        noise_name(utf8_of("amazon-") + behind),
        noise_name(before + utf8_of("BlastDoorService")),
        same_letters(like, utf8_of("1password")) ==> idle_noise_name(before + like + behind),
{
    reveal(noise_name);
    reveal(idle_noise_name);
    let s = before + like + behind;
    if same_letters(like, utf8_of("chrome")) {
        lemma_found(before, utf8_of("chrome"), like, behind);
    }
    if same_letters(like, utf8_of("widget")) {
        lemma_found(before, utf8_of("widget"), like, behind);
    }
    if same_letters(like, utf8_of("1password")) {
        lemma_found(before, utf8_of("1password"), like, behind);
    }
    let a = utf8_of("com.apple.");
    assert((a + behind).take(a.len() as int) =~= a);
    let b = utf8_of("amazon-");
    assert((b + behind).take(b.len() as int) =~= b);
    let c = utf8_of("BlastDoorService");
    assert((before + c).skip((before + c).len() - c.len()) =~= c);
}

proof fn lemma_long(lit: &str)
    requires
        vstd::string::is_ascii(lit),
        lit@.len() >= 6,
    ensures
        utf8_of(lit).len() >= 6,
{
    broadcast use vstd::string::is_ascii_spec_bytes;

}

/// A name of fewer than six letters is no noise.
pub proof fn law_short_names_are_no_noise(name: Seq<u8>)
    requires
        name.len() < 6,
    ensures
        !noise_name(name),
        !idle_noise_name(name),
{
    reveal(noise_name);
    reveal(idle_noise_name);
    reveal_strlit("chrome");
    lemma_long("chrome");
    reveal_strlit("widget");
    lemma_long("widget");
    reveal_strlit("com.apple.");
    lemma_long("com.apple.");
    reveal_strlit("amazon-");
    lemma_long("amazon-");
    reveal_strlit("ssm-session-worker");
    lemma_long("ssm-session-worker");
    reveal_strlit("spotlight");
    lemma_long("spotlight");
    reveal_strlit("springboard");
    lemma_long("springboard");
    reveal_strlit("newstoday2");
    lemma_long("newstoday2");
    reveal_strlit("newsscoringservice");
    lemma_long("newsscoringservice");
    reveal_strlit("screentimeagent");
    lemma_long("screentimeagent");
    reveal_strlit("appleaccountd");
    lemma_long("appleaccountd");
    reveal_strlit("siriinferenced");
    lemma_long("siriinferenced");
    reveal_strlit("siriactionsd");
    lemma_long("siriactionsd");
    reveal_strlit("callservicesd");
    lemma_long("callservicesd");
    reveal_strlit("calaccessd");
    lemma_long("calaccessd");
    reveal_strlit("amsengagementd");
    lemma_long("amsengagementd");
    reveal_strlit("chronod");
    lemma_long("chronod");
    reveal_strlit("remindd");
    lemma_long("remindd");
    reveal_strlit("routined");
    lemma_long("routined");
    reveal_strlit("textunderstandingd");
    lemma_long("textunderstandingd");
    reveal_strlit("corespeechd");
    lemma_long("corespeechd");
    reveal_strlit("characterpalette");
    lemma_long("characterpalette");
    reveal_strlit("BlastDoorService");
    lemma_long("BlastDoorService");
    reveal_strlit("1password");
    lemma_long("1password");
    reveal_strlit("corespotlightd");
    lemma_long("corespotlightd");
    reveal_strlit("managedcorespotlightd");
    lemma_long("managedcorespotlightd");
    reveal_strlit("spotlightknowledged");
    lemma_long("spotlightknowledged");
    reveal_strlit("mediaanalysisd");
    lemma_long("mediaanalysisd");
    reveal_strlit("photolibraryd");
    lemma_long("photolibraryd");
    reveal_strlit("photoanalysisd");
    lemma_long("photoanalysisd");
    reveal_strlit("sharingd");
    lemma_long("sharingd");
    reveal_strlit("contactsd");
    lemma_long("contactsd");
    reveal_strlit("finder");
    lemma_long("finder");
    reveal_strlit("loginwindow");
    lemma_long("loginwindow");
    reveal_strlit("netnewswire");
    lemma_long("netnewswire");
    reveal_strlit("preview");
    lemma_long("preview");
    reveal_strlit("things3");
    lemma_long("things3");
    law_short_text_holds_no_part(name, utf8_of("chrome"));
    law_short_text_holds_no_part(name, utf8_of("widget"));
    law_short_text_holds_no_part(name, utf8_of("1password"));
}

/// A program that was started with arguments is known by the first of them,
/// without its path, whatever the system calls it.
pub proof fn law_first_argument_names(
    comm: Seq<u8>,
    other: Seq<u8>,
    dir: Seq<u8>,
    name: Seq<u8>,
    args: Seq<Seq<u8>>,
)
    requires
        args.len() > 0,
        args[0] == dir + seq![0x2fu8] + name,
        forall|i: int| 0 <= i < name.len() ==> #[trigger] name[i] != 0x2f,
    ensures
        program_name(comm, args) == name,
        program_name(other, args) == name,
        program_name(comm, Seq::empty()) == comm,
        name == utf8_of("lean") || name == utf8_of("lake") ==> always_shown(comm, args),
{
    lemma_name_behind_slash(dir, name);
}

proof fn lemma_name_behind_slash(dir: Seq<u8>, name: Seq<u8>)
    requires
        forall|i: int| 0 <= i < name.len() ==> #[trigger] name[i] != 0x2f,
    ensures
        base_of(dir + seq![0x2fu8] + name) == name,
{
    let s = dir + seq![0x2fu8] + name;
    law_name_is_behind_the_last_slash(s);
    let b = base_of(s);
    let at = dir.len() as int;
    assert(s[at] == 0x2f);
    assert(s.skip(at + 1) =~= name);
    lemma_after_slash(s);
    let k = after_slash(s) as int;
    if k < at + 1 {
        assert(s.skip(k)[at - k] == 0x2f);
    } else if k > at + 1 {
        assert(s[k - 1] == name[k - 1 - (at + 1)]);
    }
}

/// The prover and its build tool belong to the prover's world.
pub proof fn law_prover_is_of_its_world(comm: Seq<u8>, args: Seq<Seq<u8>>)
    requires
        always_shown(comm, args),
    ensures
        lean_related(comm, args),
{
    let none = Seq::<u8>::empty();
    if lean_or_lake(comm) {
        lemma_found(none, comm, comm, none);
        assert(none + comm + none =~= comm);
    } else {
        let base = base_of(args[0]);
        let k = after_slash(args[0]) as int;
        lemma_after_slash(args[0]);
        lemma_found(args[0].take(k), base, base, none);
        assert(args[0].take(k) + base + none =~= args[0]);
    }
}

/// Besides its name, only the first three arguments of a process tell whether
/// it is of the prover's world.
pub proof fn law_three_arguments_tell(comm: Seq<u8>, args: Seq<Seq<u8>>, i: int)
    ensures
        lean_keyword(comm) ==> lean_related(comm, args),
        0 <= i < args.len() && i < 3 && lean_keyword(args[i]) ==> lean_related(comm, args),
        args.len() > 3 ==> lean_related(comm, args) == lean_related(comm, args.take(3)),
        !lean_keyword(comm) ==> !lean_related(comm, Seq::empty()),
{
    if args.len() > 3 {
        let few = args.take(3);
        if lean_related(comm, args) && !lean_keyword(comm) {
            let j = choose|j: int| 0 <= j < 3 && j < args.len() && lean_keyword(#[trigger] args[j]);
            assert(few[j] == args[j]);
        }
        if lean_related(comm, few) && !lean_keyword(comm) {
            let j = choose|j: int| 0 <= j < 3 && j < few.len() && lean_keyword(#[trigger] few[j]);
            assert(args[j] == few[j]);
        }
    }
}

/// Python is an interpreter in any version and in any case of letters.
pub proof fn law_versions_of_python(like: Seq<u8>, version: Seq<u8>)
    requires
        same_letters(like, utf8_of("python")),
    ensures
        interpreter_name(like + version),
{
    broadcast use vstd::string::is_ascii_spec_bytes;

    reveal_strlit("python");
    assert(vstd::string::is_ascii("python"));
    assert((like + version).take(6) =~= like);
}

/// The services and programs that are known by their whole name, in any case of
/// letters: those that are never shown, those that keep memory while they do
/// nothing, and the interpreters besides Python.
pub proof fn law_known_names(like: Seq<u8>)
    ensures
        same_letters(like, utf8_of("ssm-session-worker")) ==> noise_name(like),
        same_letters(like, utf8_of("spotlight")) ==> noise_name(like),
        same_letters(like, utf8_of("springboard")) ==> noise_name(like),
        same_letters(like, utf8_of("newstoday2")) ==> noise_name(like),
        same_letters(like, utf8_of("newsscoringservice")) ==> noise_name(like),
        same_letters(like, utf8_of("screentimeagent")) ==> noise_name(like),
        same_letters(like, utf8_of("appleaccountd")) ==> noise_name(like),
        same_letters(like, utf8_of("siriinferenced")) ==> noise_name(like),
        same_letters(like, utf8_of("siriactionsd")) ==> noise_name(like),
        same_letters(like, utf8_of("callservicesd")) ==> noise_name(like),
        same_letters(like, utf8_of("calaccessd")) ==> noise_name(like),
        same_letters(like, utf8_of("amsengagementd")) ==> noise_name(like),
        same_letters(like, utf8_of("chronod")) ==> noise_name(like),
        same_letters(like, utf8_of("remindd")) ==> noise_name(like),
        same_letters(like, utf8_of("routined")) ==> noise_name(like),
        same_letters(like, utf8_of("textunderstandingd")) ==> noise_name(like),
        same_letters(like, utf8_of("corespeechd")) ==> noise_name(like),
        same_letters(like, utf8_of("characterpalette")) ==> noise_name(like),
        same_letters(like, utf8_of("corespotlightd")) ==> idle_noise_name(like),
        same_letters(like, utf8_of("managedcorespotlightd")) ==> idle_noise_name(like),
        same_letters(like, utf8_of("spotlightknowledged")) ==> idle_noise_name(like),
        same_letters(like, utf8_of("mediaanalysisd")) ==> idle_noise_name(like),
        same_letters(like, utf8_of("photolibraryd")) ==> idle_noise_name(like),
        same_letters(like, utf8_of("photoanalysisd")) ==> idle_noise_name(like),
        same_letters(like, utf8_of("sharingd")) ==> idle_noise_name(like),
        same_letters(like, utf8_of("contactsd")) ==> idle_noise_name(like),
        same_letters(like, utf8_of("finder")) ==> idle_noise_name(like),
        same_letters(like, utf8_of("loginwindow")) ==> idle_noise_name(like),
        same_letters(like, utf8_of("netnewswire")) ==> idle_noise_name(like),
        same_letters(like, utf8_of("preview")) ==> idle_noise_name(like),
        same_letters(like, utf8_of("things3")) ==> idle_noise_name(like),
        same_letters(like, utf8_of("ruby")) ==> interpreter_name(like),
        same_letters(like, utf8_of("node")) ==> interpreter_name(like),
        same_letters(like, utf8_of("perl")) ==> interpreter_name(like),
        same_letters(like, utf8_of("lua")) ==> interpreter_name(like),
{
    reveal(noise_name);
    reveal(idle_noise_name);
}

} // verus!
