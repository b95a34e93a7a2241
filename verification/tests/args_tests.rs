use rapx::args::{
    get_arg_flag_value, filter_crate_type, is_current_compile_crate, parse_u64, rap_and_cargo_args,
    rap_clean, rap_clean_from_env, skip2, split_args_by_double_dash, str_ends_with, str_eq,
    str_starts_with, timeout, Arguments,
};

fn strings(items: &[&str]) -> Vec<String> {
    items.iter().map(|s| s.to_string()).collect()
}

#[test]
fn test_split_args_z_flag_alone() {
    // Test: -Z flag with value attached (-Z<value>)
    let args = vec![
        "cargo".to_string(),
        "rapx".to_string(),
        "-F".to_string(),
        "-Zbuild-std=panic_abort,core,std".to_string(),
    ];
    let (rap_args, cargo_args) = split_args_by_double_dash(&args);
    assert_eq!(rap_args, vec!["-F"]);
    assert_eq!(cargo_args, vec!["-Zbuild-std=panic_abort,core,std"]);
}

#[test]
fn test_split_args_z_flag_separate() {
    // Test: -Z flag with separate value (-Z <value>)
    let args = vec![
        "cargo".to_string(),
        "rapx".to_string(),
        "-F".to_string(),
        "-Z".to_string(),
        "build-std=panic_abort,core,std".to_string(),
    ];
    let (rap_args, cargo_args) = split_args_by_double_dash(&args);
    assert_eq!(rap_args, vec!["-F"]);
    assert_eq!(cargo_args, vec!["-Z", "build-std=panic_abort,core,std"]);
}

#[test]
fn test_split_args_with_double_dash() {
    // Test: Arguments with -- separator
    let args = vec![
        "cargo".to_string(),
        "rapx".to_string(),
        "-F".to_string(),
        "--".to_string(),
        "-Zbuild-std=core".to_string(),
        "--release".to_string(),
    ];
    let (rap_args, cargo_args) = split_args_by_double_dash(&args);
    assert_eq!(rap_args, vec!["-F"]);
    assert_eq!(cargo_args, vec!["-Zbuild-std=core", "--release"]);
}

#[test]
fn test_split_args_z_before_and_after_dash() {
    // Test: -Z flag before -- and other args after --
    let args = vec![
        "cargo".to_string(),
        "rapx".to_string(),
        "-F".to_string(),
        "-Zbuild-std=core".to_string(),
        "--".to_string(),
        "--release".to_string(),
    ];
    let (rap_args, cargo_args) = split_args_by_double_dash(&args);
    assert_eq!(rap_args, vec!["-F"]);
    assert_eq!(cargo_args, vec!["-Zbuild-std=core", "--release"]);
}

#[test]
fn test_split_args_multiple_z_flags() {
    // Test: Multiple -Z flags
    let args = vec![
        "cargo".to_string(),
        "rapx".to_string(),
        "-F".to_string(),
        "-Zbuild-std=core".to_string(),
        "-Zunstable-options".to_string(),
        "-M".to_string(),
    ];
    let (rap_args, cargo_args) = split_args_by_double_dash(&args);
    assert_eq!(rap_args, vec!["-F", "-M"]);
    assert_eq!(cargo_args, vec!["-Zbuild-std=core", "-Zunstable-options"]);
}

#[test]
fn test_split_args_no_z_flags() {
    // Test: No -Z flags, only rapx args
    let args = vec![
        "cargo".to_string(),
        "rapx".to_string(),
        "-F".to_string(),
        "-M".to_string(),
        "-O".to_string(),
    ];
    let (rap_args, cargo_args) = split_args_by_double_dash(&args);
    assert_eq!(rap_args, vec!["-F", "-M", "-O"]);
    assert!(cargo_args.is_empty());
}

#[test]
fn string_predicates() {
    assert!(str_eq("abc", "abc"));
    assert!(!str_eq("abc", "abd"));
    assert!(str_starts_with("-Zbuild", "-Z"));
    assert!(!str_starts_with("-Y", "-Z"));
    assert!(str_ends_with("main.rs", ".rs"));
    assert!(!str_ends_with("main.rc", ".rs"));
}

#[test]
fn flag_values_both_shapes() {
    let arguments = Arguments::new(
        strings(&["cargo", "rapx", "--crate-type=bin", "--crate-name", "demo"]),
        "/usr/bin/demo".to_string(),
        None,
    );
    assert_eq!(
        arguments.get_arg_flag_value("--crate-type"),
        Some("bin".to_string())
    );
    assert_eq!(
        arguments.get_arg_flag_value("--crate-name"),
        Some("demo".to_string())
    );
    assert_eq!(arguments.get_arg_flag_value("--edition"), None);
    assert_eq!(
        get_arg_flag_value(&arguments, "--crate-type"),
        Some("bin".to_string())
    );
}

#[test]
fn crate_type_filtering() {
    let proc_macro = Arguments::new(
        strings(&["cargo", "rapx", "--crate-type=proc-macro"]),
        String::new(),
        None,
    );
    assert!(!filter_crate_type(&proc_macro));

    let build_script = Arguments::new(
        strings(&[
            "cargo",
            "rapx",
            "--crate-type=bin",
            "--crate-name=build_script_build",
        ]),
        String::new(),
        None,
    );
    assert!(!filter_crate_type(&build_script));

    let ordinary = Arguments::new(
        strings(&["cargo", "rapx", "--crate-type=lib"]),
        String::new(),
        None,
    );
    assert!(filter_crate_type(&ordinary));

    let test_build = Arguments::new(strings(&["cargo", "rapx"]), String::new(), None);
    assert!(filter_crate_type(&test_build));
}

#[test]
fn local_crate_detection() {
    let relative = Arguments::new(
        strings(&["cargo", "rapx", "src/main.rs"]),
        String::new(),
        None,
    );
    assert!(is_current_compile_crate(&relative));

    let absolute = Arguments::new(
        strings(&["cargo", "rapx", "/tmp/dep/src/lib.rs"]),
        String::new(),
        None,
    );
    assert!(!is_current_compile_crate(&absolute));

    let std_entry = Arguments::new(
        strings(&[
            "cargo",
            "rapx",
            "/sysroot/lib/rustlib/src/rust/library/std/src/lib.rs",
        ]),
        String::new(),
        None,
    );
    assert!(is_current_compile_crate(&std_entry));

    let no_rs = Arguments::new(strings(&["cargo", "rapx", "-F"]), String::new(), None);
    assert!(!is_current_compile_crate(&no_rs));
}

#[test]
fn clean_setting() {
    assert!(rap_clean_from_env(None));
    assert!(!rap_clean_from_env(Some("false")));
    assert!(!rap_clean_from_env(Some("  FALSE \n")));
    assert!(rap_clean_from_env(Some("true")));
    assert!(rap_clean_from_env(Some("falsehood")));
    let arguments = Arguments::new(
        strings(&["cargo", "rapx"]),
        String::new(),
        Some("False".to_string()),
    );
    assert!(!rap_clean(&arguments));
}

#[test]
fn decimal_parsing() {
    assert_eq!(parse_u64("123"), Some(123));
    assert_eq!(parse_u64("+7"), Some(7));
    assert_eq!(parse_u64("0"), Some(0));
    assert_eq!(parse_u64(""), None);
    assert_eq!(parse_u64("+"), None);
    assert_eq!(parse_u64("12x"), None);
    assert_eq!(parse_u64("18446744073709551615"), Some(u64::MAX));
    assert_eq!(parse_u64("18446744073709551616"), None);
}

#[test]
fn timeout_flag() {
    let with_timeout = Arguments::new(
        strings(&["cargo", "rapx", "-timeout=90"]),
        String::new(),
        None,
    );
    assert_eq!(timeout(&with_timeout), Some(90));

    let separate = Arguments::new(
        strings(&["cargo", "rapx", "-timeout", "30"]),
        String::new(),
        None,
    );
    assert_eq!(timeout(&separate), Some(30));

    let missing = Arguments::new(strings(&["cargo", "rapx"]), String::new(), None);
    assert_eq!(timeout(&missing), None);

    let bad = Arguments::new(
        strings(&["cargo", "rapx", "-timeout=soon"]),
        String::new(),
        None,
    );
    assert_eq!(timeout(&bad), None);
}

#[test]
fn raw_argument_access() {
    let arguments = Arguments::new(
        strings(&["cargo", "rapx", "-F", "--", "--release"]),
        "/bin/cargo-rapx".to_string(),
        None,
    );
    assert_eq!(rapx::args::get_arg(&arguments, 0), Some("cargo".to_string()));
    assert_eq!(rapx::args::get_arg(&arguments, 9), None);
    assert_eq!(skip2(&arguments), strings(&["-F", "--", "--release"]));
    assert_eq!(
        rapx::args::current_exe_path(&arguments),
        &"/bin/cargo-rapx".to_string()
    );
    let (rap, cargo) = rap_and_cargo_args(&arguments);
    assert_eq!(rap, &strings(&["-F"]));
    assert_eq!(cargo, &strings(&["--release"]));
}
