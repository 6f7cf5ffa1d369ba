//! Argument handling, the path model, and the run setup.

use kboot::args::{
    get_bootloader_selection, get_executable, get_executable_parent, get_file_stem,
    get_limine_conf, get_manifest_toml, get_qemu_options, get_quoted_args, get_ramdisk_path,
    get_workspace_root, has_qemu_options, has_ramdisk, is_doctest, is_legacy_boot,
    is_limine_conf_name, is_no_ktest, is_test, should_scan_directory, BootloaderSelection,
};
use kboot::qemu::{debugcon_argument, test_arguments, QemuExitCode, RunArguments};

fn b(s: &str) -> Vec<u8> {
    s.as_bytes().to_vec()
}

fn args(list: &[&str]) -> Vec<Vec<u8>> {
    list.iter().map(|a| b(a)).collect()
}

fn s(v: &[u8]) -> String {
    String::from_utf8(v.to_vec()).unwrap()
}

#[test]
fn the_executable_is_the_last_positional_argument() {
    let a = args(&["kboot", "--no-ktest", "target/debug/my_executable"]);
    assert_eq!(s(&get_executable(&a).unwrap()), "target/debug/my_executable");
    assert!(get_executable(&args(&["kboot"])).is_err());
    assert!(get_executable(&args(&["kboot", "--limine"])).is_err());
}

#[test]
fn the_path_model_reads_names_and_parents() {
    let a = args(&["kboot", "target/debug/my_executable.bin"]);
    assert_eq!(s(&get_file_stem(&a).unwrap()), "my_executable");
    assert_eq!(s(&get_executable_parent(&a).unwrap()), "target/debug");
    let bare = args(&["kboot", "justafile"]);
    assert!(get_executable_parent(&bare).is_err());
}

#[test]
fn the_workspace_root_stands_above_target() {
    let a = args(&["kboot", "/home/u/proj/target/debug/deps/kernel-abc"]);
    assert_eq!(s(&get_workspace_root(&a).unwrap()), "/home/u/proj");
    // without a target directory the walk ends at the topmost ancestor
    let no_target = args(&["kboot", "/srv/bin/kernel"]);
    assert_eq!(s(&get_workspace_root(&no_target).unwrap()), "/");
}

#[test]
fn test_binaries_are_recognized_by_their_directory() {
    let deps = args(&["kboot", "/p/target/debug/deps/kernel-abc"]);
    assert!(is_test(&deps).unwrap());
    assert!(!is_doctest(&deps).unwrap());
    let doctest = args(&["kboot", "/p/target/debug/rustdoctest42/kernel"]);
    assert!(is_doctest(&doctest).unwrap());
    assert!(is_test(&doctest).unwrap());
    let plain = args(&["kboot", "/p/target/debug/kernel"]);
    assert!(!is_test(&plain).unwrap());
}

#[test]
fn flags_are_exact_matches() {
    let a = args(&["kboot", "--no-ktest", "--legacy-boot", "exe"]);
    assert!(is_no_ktest(&a));
    assert!(is_legacy_boot(&a));
    assert!(!has_ramdisk(&a));
    assert!(!is_no_ktest(&args(&["kboot", "--no-ktests", "exe"])));
}

#[test]
fn the_bootloader_defaults_to_the_crate() {
    assert!(matches!(
        get_bootloader_selection(&args(&["kboot", "exe"])),
        BootloaderSelection::BootloaderCrate
    ));
    assert!(matches!(
        get_bootloader_selection(&args(&["kboot", "--limine", "exe"])),
        BootloaderSelection::Limine
    ));
}

#[test]
fn quoted_arguments_are_gathered_and_stripped() {
    let a = args(&["kboot", "--qemu", "\"-m", "2G\"", "exe"]);
    assert!(has_qemu_options(&a));
    let opts = get_qemu_options(&a).unwrap();
    assert_eq!(opts.len(), 2);
    assert_eq!(s(&opts[0]), "-m");
    assert_eq!(s(&opts[1]), "2G");
    // a single argument may open and close the quote at once
    let one = get_quoted_args(&args(&["\"-serial stdio\""]), 0).unwrap();
    assert_eq!(one.len(), 2);
    assert_eq!(s(&one[0]), "-serial");
    assert_eq!(s(&one[1]), "stdio");
    // no quote ever opens: an error
    assert!(get_quoted_args(&args(&["-m", "2G"]), 0).is_err());
}

#[test]
fn the_ramdisk_path_is_one_quoted_value() {
    assert_eq!(get_ramdisk_path(&args(&["kboot", "exe"])).unwrap(), None);
    let a = args(&["kboot", "--ramdisk", "\"initrd.img\"", "exe"]);
    assert_eq!(s(&get_ramdisk_path(&a).unwrap().unwrap()), "initrd.img");
    let two = args(&["kboot", "--ramdisk", "\"a", "b\"", "exe"]);
    assert!(get_ramdisk_path(&two).is_err());
}

#[test]
fn manifest_and_limine_paths() {
    assert_eq!(s(&get_manifest_toml(&b("/p/crate"))), "/p/crate/Cargo.toml");
    assert_eq!(s(&get_limine_conf(Some(b("/p/limine.conf"))).unwrap()), "/p/limine.conf");
    assert!(get_limine_conf(None).is_err());
    assert!(is_limine_conf_name(&b("limine.conf")));
    assert!(!is_limine_conf_name(&b("limine.cfg")));
    assert!(should_scan_directory(&b("src")));
    assert!(!should_scan_directory(&b("target")));
    assert!(!should_scan_directory(&b(".build")));
    assert!(!should_scan_directory(&b(".git")));
}

#[test]
fn run_arguments_lay_out_the_build_tree() {
    let r = RunArguments::default(&b("/p"));
    assert_eq!(s(&r.build_path), "/p/.build");
    assert_eq!(s(&r.image_path), "/p/.build/kernel.img");
    assert_eq!(s(&r.testing_path), "/p/.build/testing");
    assert!(r.qemu_run_args.is_empty());
    assert!(r.qemu_test_args.is_empty());
    let lines = r.print();
    assert_eq!(lines.len(), 3);
    assert_eq!(s(&lines[0]), "/p/.build");
}

#[test]
fn test_runs_get_the_exit_device_and_capture_file() {
    let t = test_arguments();
    assert_eq!(s(&t[0]), "-device");
    assert_eq!(s(&t[1]), "isa-debug-exit,iobase=0xf4,iosize=0x04");
    assert_eq!(s(&t[2]), "-display");
    assert_eq!(s(&t[3]), "none");
    assert_eq!(s(&debugcon_argument(&b("id-1"))), "file:/testing/logs/tests-id-1.json");
}

#[test]
fn qemu_exit_codes_round_trip() {
    assert_eq!(QemuExitCode::Success.code(), 16);
    assert_eq!(QemuExitCode::Failed.code(), 17);
    assert_eq!(QemuExitCode::from_code(16), Some(QemuExitCode::Success));
    assert_eq!(QemuExitCode::from_code(17), Some(QemuExitCode::Failed));
    assert_eq!(QemuExitCode::from_code(0), None);
}

#[test]
fn run_identifiers_name_the_log_file() {
    let id = kboot::new_run_id();
    assert_eq!(id.len(), 36);
    assert!(id.iter().all(|&c| c == b'-' || c.is_ascii_digit() || (b'a'..=b'f').contains(&c)));
    let path = kboot::get_log_file_path(&id);
    let text = s(&path);
    assert!(text.starts_with(".build/logs/kboot-"));
    assert!(text.ends_with(".log"));
    // two invocations never share a file
    assert_ne!(kboot::new_run_id(), id);
}
