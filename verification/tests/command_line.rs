//! Decisions of the command line, the backend and the linker.
use xia::backend::OptLevel;
use xia::driver::{
    check, check_target, compile_source, exit_code, frontend, output_name, pick_opt, Emit,
};
use xia::linker::{
    link, link_outcome, link_report, link_unix, located, newest_subdir, which, windows_lib_paths,
    Ended,
};
use xia::text::{cat3, dec_i64, repeat_char, same};

#[test]
fn size_wins_over_speed() {
    assert_eq!(pick_opt(false, false), OptLevel::Unoptimized);
    assert_eq!(pick_opt(true, false), OptLevel::Speed);
    assert_eq!(pick_opt(false, true), OptLevel::Size);
    assert_eq!(pick_opt(true, true), OptLevel::Size);
}

#[test]
fn release_builds_strip() {
    assert_eq!(OptLevel::Unoptimized.pass_pipeline(), "default<O0>");
    assert_eq!(OptLevel::Unoptimized.passes(), "default<O0>");
    assert_eq!(OptLevel::Speed.passes(), "default<O3>,strip");
    assert_eq!(OptLevel::Size.passes(), "default<Oz>,strip");
}

#[test]
fn outputs_are_named_after_the_source() {
    assert_eq!(output_name("a", Emit::Ir, false), "a.ll");
    assert_eq!(output_name("a", Emit::Obj, false), "a.o");
    assert_eq!(output_name("a", Emit::Obj, true), "a.obj");
    assert_eq!(output_name("a", Emit::Exe, false), "a");
    assert_eq!(output_name("a", Emit::Exe, true), "a.exe");
}

#[test]
fn only_the_host_is_linked_for() {
    assert!(check_target(false, "a", "b").is_ok());
    assert!(check_target(true, "a", "a").is_ok());
    assert_eq!(
        check_target(true, "a", "b").unwrap_err(),
        "cross-linking is not supported; use --emit obj and link on the target system"
    );
}

#[test]
fn exit_codes_are_held_to_a_byte() {
    assert_eq!(exit_code(Some(42)), 42);
    assert_eq!(exit_code(Some(-1)), 0);
    assert_eq!(exit_code(Some(300)), 255);
    assert_eq!(exit_code(None), 1);
}

#[test]
fn cc_links_on_unix() {
    let i = link_unix("a.o", "a");
    assert_eq!(i.program, "cc");
    assert_eq!(i.args, ["a.o", "-o", "a"]);
    let i = link(false, "a.o", "a", None, Err("no".into())).unwrap();
    assert_eq!(i.program, "cc");
}

#[test]
fn lld_links_on_windows() {
    let i = link(
        true,
        "a.obj",
        "a.exe",
        Some("lld-link.exe".into()),
        Ok(vec!["L1".into(), "L2".into()]),
    )
    .unwrap();
    assert_eq!(i.program, "lld-link.exe");
    assert_eq!(
        i.args,
        [
            "/nologo",
            "/subsystem:console",
            "a.obj",
            "/out:a.exe",
            "/libpath:L1",
            "/libpath:L2",
            "msvcrt.lib",
            "vcruntime.lib",
            "ucrt.lib",
            "legacy_stdio_definitions.lib",
            "kernel32.lib"
        ]
    );
    assert!(link(true, "a", "b", None, Ok(vec![])).is_err());
    assert!(matches!(
        link(true, "a", "b", Some("lld".into()), Err("gone".into())),
        Err(m) if m == "gone"
    ));
}

#[test]
fn failed_links_speak_for_themselves() {
    assert!(link_outcome(false, true, "", "").is_ok());
    assert_eq!(link_outcome(false, false, "out", "err").unwrap_err(), "cc failed:\nerr");
    assert_eq!(
        link_outcome(true, false, "out", "err").unwrap_err(),
        "lld-link failed:\nouterr"
    );
}

#[test]
fn linkers_that_do_not_start_are_named() {
    assert_eq!(
        link_report(false, Err("no such file".into())).unwrap_err(),
        "failed to run cc: no such file"
    );
    assert_eq!(
        link_report(true, Err("denied".into())).unwrap_err(),
        "failed to run lld-link: denied"
    );
    let ended = |success: bool| Ended { success, stdout: "o".into(), stderr: "e".into() };
    assert!(link_report(false, Ok(ended(true))).is_ok());
    assert_eq!(link_report(false, Ok(ended(false))).unwrap_err(), "cc failed:\ne");
    assert_eq!(link_report(true, Ok(ended(false))).unwrap_err(), "lld-link failed:\noe");
}

#[test]
fn programs_are_looked_for_along_the_path() {
    assert_eq!(which("C:\\a;D:\\b;", "x.exe"), ["C:\\a\\x.exe", "D:\\b\\x.exe", "x.exe"]);
    assert_eq!(which("", "x"), ["x"]);
    // a drive alone stands for the directory at hand on it
    assert_eq!(which("C:;d:;C:\\;1:", "x"), ["C:x", "d:x", "C:\\x", "1:\\x"]);
}

#[test]
fn the_last_version_is_the_newest() {
    let names: Vec<String> = vec!["10.0.1".into(), "10.0.22".into(), "10.0.19".into()];
    assert_eq!(newest_subdir(&names), Some(1));
    assert_eq!(newest_subdir(&Vec::new()), None);
    let same: Vec<String> = vec!["a".into(), "a".into()];
    assert_eq!(newest_subdir(&same), Some(1));
}

#[test]
fn three_library_paths_are_needed() {
    let paths = windows_lib_paths(Some("T".into()), Some("V".into()));
    assert_eq!(paths, ["T\\lib\\x64", "V\\ucrt\\x64", "V\\um\\x64"]);
    assert!(located(paths.clone(), 0).is_ok());
    assert!(located(paths, 1).is_err());
    let paths = windows_lib_paths(None, Some("V".into()));
    assert_eq!(paths.len(), 2);
    assert_eq!(
        located(paths, 0).unwrap_err(),
        "could not locate MSVC / Windows SDK libraries; install Visual Studio Build Tools"
    );
}

#[test]
fn sources_are_checked_and_compiled() {
    assert!(check("a.xia", "fn main():\n    print(1)\n").is_ok());
    let e = check("a.xia", "fn main():\n    print(x)\n").unwrap_err();
    assert!(e.starts_with("undefined variable `x`\n  --> a.xia:2:11\n"), "{e}");
    assert!(frontend("a.xia", "fn f(:\n").is_err());
    let m = compile_source("a.xia", "fn main():\n    print(1)\n").unwrap();
    assert!(m.to_text().contains("define void @xia_main()"));
    assert!(matches!(
        compile_source("a.xia", "fn main(n: int):\n    print(n)\n"),
        Err(m) if m == "codegen: `main` must not take parameters"
    ));
}

#[test]
fn texts_are_put_together() {
    assert!(same("a", "a"));
    assert!(!same("a", "b"));
    assert_eq!(cat3("a", "b", "c"), "abc");
    assert_eq!(dec_i64(i64::MIN), "-9223372036854775808");
    assert_eq!(dec_i64(0), "0");
    assert_eq!(repeat_char('x', 3), "xxx");
}
