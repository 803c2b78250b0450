//! Phase 5: how emitted objects are linked into executables.
//!
//! Xia links directly against libc with no wrapper runtime. On Windows the
//! object is linked with `lld-link` (bundled with the LLVM dev package, or on
//! PATH) against the MSVC + Windows SDK import libraries; on Unix hosts `cc`
//! is driven, which knows the platform's CRT startup files.
use vstd::prelude::*;
use crate::ast::names_v;
use crate::text::{cat2, cat3, chars_of, text_of};

verus! {

/// A program to run and its arguments.
pub struct Invocation {
    pub program: String,
    pub args: Vec<String>,
}

impl Invocation {
    /// The program and its arguments as texts.
    pub open spec fn view(&self) -> (Seq<char>, Seq<Seq<char>>) {
        (self.program@, names_v(self.args@))
    }
}

/// How `cc` is driven.
pub open spec fn unix_link(obj: Seq<char>, exe: Seq<char>) -> (Seq<char>, Seq<Seq<char>>) {
    ("cc"@, seq![obj, "-o"@, exe])
}

/// The libraries that every Windows executable needs. The dynamic CRT (/MD)
/// set; legacy_stdio_definitions provides printf, which the UCRT otherwise
/// defines as an inline function.
pub open spec fn windows_libs() -> Seq<Seq<char>> {
    seq![
        "msvcrt.lib"@,
        "vcruntime.lib"@,
        "ucrt.lib"@,
        "legacy_stdio_definitions.lib"@,
        "kernel32.lib"@,
    ]
}

/// How `lld-link` is driven.
pub open spec fn windows_link(
    lld: Seq<char>,
    obj: Seq<char>,
    exe: Seq<char>,
    libpaths: Seq<Seq<char>>,
) -> (Seq<char>, Seq<Seq<char>>) {
    (
        lld,
        seq!["/nologo"@, "/subsystem:console"@, obj, "/out:"@ + exe] + Seq::new(
            libpaths.len(),
            |i: int| "/libpath:"@ + libpaths[i],
        ) + windows_libs(),
    )
}

/// Appends a text.
fn add(args: &mut Vec<String>, s: String)
    ensures
        names_v(final(args)@) == names_v(old(args)@).push(s@),
{
    let ghost before = names_v(args@);
    let ghost last = s@;
    args.push(s);
    assert(names_v(args@) =~= before.push(last));
}

pub fn link_unix(obj: &str, exe: &str) -> (i: Invocation)
    ensures
        i@ == unix_link(obj@, exe@),
{
    let mut args: Vec<String> = Vec::new();
    self::add(&mut args, String::from_str(obj));
    self::add(&mut args, String::from_str("-o"));
    self::add(&mut args, String::from_str(exe));
    assert(names_v(args@) =~= seq![obj@, "-o"@, exe@]);
    Invocation { program: String::from_str("cc"), args }
}

pub fn link_windows(lld: &str, obj: &str, exe: &str, libpaths: &Vec<String>) -> (i: Invocation)
    ensures
        i@ == windows_link(lld@, obj@, exe@, names_v(libpaths@)),
{
    let mut args: Vec<String> = Vec::new();
    self::add(&mut args, String::from_str("/nologo"));
    self::add(&mut args, String::from_str("/subsystem:console"));
    self::add(&mut args, String::from_str(obj));
    self::add(&mut args, cat2("/out:", exe));
    let ghost paths = Seq::new(
        libpaths@.len(),
        |i: int| "/libpath:"@ + names_v(libpaths@)[i],
    );
    let ghost head = seq!["/nologo"@, "/subsystem:console"@, obj@, "/out:"@ + exe@];
    assert(names_v(args@) =~= head + paths.take(0));
    let mut i: usize = 0;
    while i < libpaths.len()
        invariant
            i <= libpaths@.len(),
            paths == Seq::new(libpaths@.len(), |i: int| "/libpath:"@ + names_v(libpaths@)[i]),
            names_v(args@) == head + paths.take(i as int),
        decreases libpaths@.len() - i,
    {
        self::add(&mut args, cat2("/libpath:", libpaths[i].as_str()));
        assert(head + paths.take(i + 1) =~= (head + paths.take(i as int)).push(paths[i as int]));
        i = i + 1;
    }
    self::add(&mut args, String::from_str("msvcrt.lib"));
    self::add(&mut args, String::from_str("vcruntime.lib"));
    self::add(&mut args, String::from_str("ucrt.lib"));
    self::add(&mut args, String::from_str("legacy_stdio_definitions.lib"));
    self::add(&mut args, String::from_str("kernel32.lib"));
    assert(names_v(args@) =~= head + paths + windows_libs());
    Invocation { program: String::from_str(lld), args }
}

/// What to run to link an object: on Windows it takes a linker that was found
/// and the library paths that were located, elsewhere `cc`.
pub fn link(
    windows: bool,
    obj: &str,
    exe: &str,
    lld: Option<String>,
    libpaths: Result<Vec<String>, String>,
) -> (r: Result<Invocation, String>)
    ensures
        match r {
            Ok(i) => if windows {
                lld is Some && libpaths is Ok && i@ == windows_link(
                    lld->0@,
                    obj@,
                    exe@,
                    names_v(libpaths->Ok_0@),
                )
            } else {
                i@ == unix_link(obj@, exe@)
            },
            Err(m) => windows && (if lld is None {
                m@
                    == "lld-link not found: install LLVM or set LLVM_SYS_181_PREFIX to an LLVM tree"@
            } else {
                libpaths matches Err(e) && e@ == m@
            }),
        },
{
    if !windows {
        return Ok(link_unix(obj, exe));
    }
    let lld = match lld {
        Some(lld) => lld,
        None => {
            return Err(
                String::from_str(
                    "lld-link not found: install LLVM or set LLVM_SYS_181_PREFIX to an LLVM tree",
                ),
            );
        },
    };
    match libpaths {
        Ok(paths) => Ok(link_windows(lld.as_str(), obj, exe, &paths)),
        Err(m) => Err(m),
    }
}

/// What a linker run comes to: its own words where it failed.
pub fn link_outcome(windows: bool, success: bool, stdout: &str, stderr: &str) -> (r: Result<
    (),
    String,
>)
    ensures
        match r {
            Ok(_) => success,
            Err(m) => !success && m@ == (if windows {
                "lld-link failed:\n"@ + stdout@ + stderr@
            } else {
                "cc failed:\n"@ + stderr@
            }),
        },
{
    if success {
        Ok(())
    } else if windows {
        Err(cat3("lld-link failed:\n", stdout, stderr))
    } else {
        Err(cat2("cc failed:\n", stderr))
    }
}

/// How a linker that was started ended.
pub struct Ended {
    pub success: bool,
    pub stdout: String,
    pub stderr: String,
}

/// What is reported of a linker that should run: where it did not start, which
/// one and why.
pub fn link_report(windows: bool, run: Result<Ended, String>) -> (r: Result<(), String>)
    ensures
        match run {
            Ok(end) => match r {
                Ok(_) => end.success,
                Err(m) => !end.success && m@ == (if windows {
                    "lld-link failed:\n"@ + end.stdout@ + end.stderr@
                } else {
                    "cc failed:\n"@ + end.stderr@
                }),
            },
            Err(reason) => r matches Err(m) && m@ == (if windows {
                "failed to run lld-link: "@
            } else {
                "failed to run cc: "@
            }) + reason@,
        },
{
    match run {
        Ok(end) => link_outcome(
            windows,
            end.success,
            end.stdout.as_str(),
            end.stderr.as_str(),
        ),
        Err(reason) => {
            let tool = if windows {
                "failed to run lld-link: "
            } else {
                "failed to run cc: "
            };
            Err(cat2(tool, reason.as_str()))
        },
    }
}

// ----- where the tools are ------------------------------------------------------------------
/// Whether a path is a drive and nothing more, as `C:` is: it stands for the
/// directory at hand on that drive, and takes no separator.
pub open spec fn bare_drive(dir: Seq<char>) -> bool {
    dir.len() == 2 && ('a' <= dir[0] <= 'z' || 'A' <= dir[0] <= 'Z') && dir[1] == ':'
}

/// A name in a directory.
pub open spec fn joined_path(dir: Seq<char>, name: Seq<char>) -> Seq<char> {
    if dir.len() == 0 {
        name
    } else if dir.last() == '\\' || dir.last() == '/' || bare_drive(dir) {
        dir + name
    } else {
        dir + "\\"@ + name
    }
}

fn join_path(dir: &str, name: &str) -> (s: String)
    ensures
        s@ == joined_path(dir@, name@),
{
    let chars = chars_of(dir);
    if chars.len() == 0 {
        return String::from_str(name);
    }
    let first: char = chars[0];
    let last: char = chars[chars.len() - 1];
    let letter = ('a' <= first && first <= 'z') || ('A' <= first && first <= 'Z');
    let drive = chars.len() == 2 && letter && last == ':';
    if last == '\\' || last == '/' || drive {
        cat2(dir, name)
    } else {
        cat3(dir, "\\", name)
    }
}

/// The end of the entry of a search path that begins at `i`.
pub open spec fn entry_end(path: Seq<char>, i: int) -> int
    decreases path.len() - i,
{
    if i < 0 || i >= path.len() {
        path.len() as int
    } else if path[i] == ';' {
        i
    } else {
        entry_end(path, i + 1)
    }
}

proof fn lemma_entry_end(path: Seq<char>, i: int)
    requires
        0 <= i <= path.len(),
    ensures
        i <= entry_end(path, i) <= path.len(),
    decreases path.len() - i,
{
    if i < path.len() && path[i] != ';' {
        lemma_entry_end(path, i + 1);
    }
}

/// Where a program may be, by a search path whose entries are separated by
/// semicolons, from position `i` on.
pub open spec fn places(path: Seq<char>, name: Seq<char>, i: int) -> Seq<Seq<char>>
    decreases path.len() - i,
    via places_decreases
{
    if i < 0 || i > path.len() {
        Seq::empty()
    } else {
        let e = entry_end(path, i);
        seq![joined_path(path.subrange(i, e), name)] + (if e < path.len() {
            places(path, name, e + 1)
        } else {
            Seq::empty()
        })
    }
}

#[via_fn]
proof fn places_decreases(path: Seq<char>, name: Seq<char>, i: int) {
    if 0 <= i <= path.len() {
        lemma_entry_end(path, i);
    }
}

/// Where a program may be, by the search path: the first place where it exists
/// is taken.
pub fn which(path: &str, name: &str) -> (found: Vec<String>)
    ensures
        names_v(found@) == places(path@, name@, 0),
{
    let chars = chars_of(path);
    let ghost all = places(path@, name@, 0);
    let mut found: Vec<String> = Vec::new();
    let mut i: usize = 0;
    assert(names_v(found@) + all =~= all);
    loop
        invariant
            chars@ == path@,
            i <= chars@.len(),
            all == places(path@, name@, 0),
            names_v(found@) + places(path@, name@, i as int) == all,
        decreases chars@.len() - i,
    {
        let mut e: usize = i;
        while e < chars.len() && chars[e] != ';'
            invariant
                i <= e <= chars@.len(),
                chars@ == path@,
                entry_end(path@, i as int) == entry_end(path@, e as int),
            decreases chars@.len() - e,
        {
            e = e + 1;
        }
        let dir = text_of(&chars, i, e);
        let ghost before = names_v(found@);
        let place = join_path(dir.as_str(), name);
        let ghost here = place@;
        self::add(&mut found, place);
        if e == chars.len() {
            assert(names_v(found@) =~= before + (seq![here] + Seq::empty()));
            return found;
        }
        assert(names_v(found@) + places(path@, name@, e + 1) =~= before + (seq![here] + places(
            path@,
            name@,
            e + 1,
        )));
        i = e + 1;
    }
}

/// Whether `a` comes before `b`, or is `b`, character by character from
/// position `i` on.
pub open spec fn not_after(a: Seq<char>, b: Seq<char>, i: int) -> bool
    decreases a.len() - i,
{
    if i < 0 || i >= a.len() {
        true
    } else if i >= b.len() {
        false
    } else if a[i] != b[i] {
        (a[i] as u32) < (b[i] as u32)
    } else {
        not_after(a, b, i + 1)
    }
}

fn is_not_after(a: &str, b: &str) -> (r: bool)
    ensures
        r == not_after(a@, b@, 0),
{
    let x = chars_of(a);
    let y = chars_of(b);
    let mut i: usize = 0;
    while i < x.len()
        invariant
            x@ == a@,
            y@ == b@,
            i <= x@.len(),
            not_after(a@, b@, 0) == not_after(a@, b@, i as int),
        decreases x@.len() - i,
    {
        if i >= y.len() {
            return false;
        }
        if x[i] != y[i] {
            return (x[i] as u32) < (y[i] as u32);
        }
        i = i + 1;
    }
    true
}

/// The last of some names in their order, by its position among the first `n`.
pub open spec fn last_name(names: Seq<Seq<char>>, n: nat) -> Option<int>
    decreases n,
{
    if n == 0 {
        None
    } else {
        match last_name(names, (n - 1) as nat) {
            None => Some(n - 1),
            Some(k) => if not_after(names[k], names[n - 1], 0) {
                Some(n - 1)
            } else {
                Some(k)
            },
        }
    }
}

/// The newest of some version directories: the last in the order of their
/// names.
pub fn newest_subdir(names: &Vec<String>) -> (r: Option<usize>)
    ensures
        match r {
            Some(k) => last_name(names_v(names@), names@.len()) == Some(k as int)
                && k < names@.len(),
            None => names@.len() == 0,
        },
{
    let ghost all = names_v(names@);
    let mut best: Option<usize> = None;
    let mut i: usize = 0;
    while i < names.len()
        invariant
            i <= names@.len(),
            all == names_v(names@),
            best is None <==> i == 0,
            match best {
                Some(k) => last_name(all, i as nat) == Some(k as int) && k < i,
                None => last_name(all, i as nat) is None,
            },
        decreases names@.len() - i,
    {
        best = match best {
            None => Some(i),
            Some(k) => if is_not_after(names[k].as_str(), names[i].as_str()) {
                Some(i)
            } else {
                Some(k)
            },
        };
        i = i + 1;
    }
    best
}

/// The library directories of a toolset and an SDK version, those that were
/// found.
pub open spec fn lib_paths(toolset: Option<Seq<char>>, sdk: Option<Seq<char>>) -> Seq<Seq<char>> {
    (match toolset {
        Some(t) => seq![joined_path(t, "lib\\x64"@)],
        None => Seq::empty(),
    }) + (match sdk {
        Some(v) => seq![joined_path(v, "ucrt\\x64"@), joined_path(v, "um\\x64"@)],
        None => Seq::empty(),
    })
}

pub open spec fn opt_text(s: Option<String>) -> Option<Seq<char>> {
    match s {
        Some(s) => Some(s@),
        None => None,
    }
}

/// The MSVC toolchain and Windows SDK import libraries (x64).
pub fn windows_lib_paths(toolset: Option<String>, sdk: Option<String>) -> (paths: Vec<String>)
    ensures
        names_v(paths@) == lib_paths(opt_text(toolset), opt_text(sdk)),
{
    let ghost all = lib_paths(opt_text(toolset), opt_text(sdk));
    let mut paths: Vec<String> = Vec::new();
    if let Some(t) = &toolset {
        self::add(&mut paths, join_path(t.as_str(), "lib\\x64"));
    }
    if let Some(v) = &sdk {
        self::add(&mut paths, join_path(v.as_str(), "ucrt\\x64"));
        self::add(&mut paths, join_path(v.as_str(), "um\\x64"));
    }
    assert(names_v(paths@) =~= all);
    paths
}

/// The library paths, where all three are known and exist.
pub fn located(paths: Vec<String>, missing: usize) -> (r: Result<Vec<String>, String>)
    ensures
        match r {
            Ok(p) => p == paths && paths@.len() >= 3 && missing == 0,
            Err(m) => (paths@.len() < 3 || missing > 0) && m@
                == "could not locate MSVC / Windows SDK libraries; install Visual Studio Build Tools"@,
        },
{
    if paths.len() < 3 || missing > 0 {
        Err(
            String::from_str(
                "could not locate MSVC / Windows SDK libraries; install Visual Studio Build Tools",
            ),
        )
    } else {
        Ok(paths)
    }
}

} // verus!
