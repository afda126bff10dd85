use ipa_builder::bundle::{locate_bundle, TreeEntry};
use ipa_builder::layout::assemble_payload;
use ipa_builder::naming::{is_candidate_runner_zip, is_valid_ipa_name};
use ipa_builder::payload::{is_macho, unix_permissions_for_payload_file, zip_name_from_relative_path};
use ipa_builder::tree::{entry_name_is_enclosed, path_components};
use ipa_builder::watch::{check_watch_config, AutoCheckConfig, Probe, ReadyStep, StabilityTracker};

fn strings(parts: &[&str]) -> Vec<String> {
    parts.iter().map(|s| s.to_string()).collect()
}

#[test]
fn macho_magic_numbers_are_recognised() {
    for magic in [
        [0xFE, 0xED, 0xFA, 0xCE],
        [0xFE, 0xED, 0xFA, 0xCF],
        [0xCA, 0xFE, 0xBA, 0xBE],
        [0xBE, 0xBA, 0xFE, 0xCA],
        [0xCE, 0xFA, 0xED, 0xFE],
        [0xCF, 0xFA, 0xED, 0xFE],
    ] {
        assert!(is_macho(&magic));
    }
    assert!(!is_macho(&[0xCF, 0xFA, 0xED]));
    assert!(!is_macho(b"#!/bin/sh"));
    assert!(!is_macho(&[]));
    assert!(!is_macho(&[0xFE, 0xED, 0xFA, 0xCD]));
}

#[test]
fn permission_policy() {
    assert_eq!(unix_permissions_for_payload_file("Runner", &[0xCF, 0xFA, 0xED, 0xFE, 0, 0]), 0o755);
    assert_eq!(unix_permissions_for_payload_file("libswift.dylib", b"anything"), 0o755);
    assert_eq!(unix_permissions_for_payload_file("notes.txt", b"hello world"), 0o644);
    assert_eq!(unix_permissions_for_payload_file(".dylib", b"hidden"), 0o644);
    assert_eq!(unix_permissions_for_payload_file("x.DYLIB", b"case matters"), 0o644);
}

#[test]
fn entry_names_from_components() {
    assert_eq!(zip_name_from_relative_path(&strings(&["Payload", "A.app", "Info.plist"]), false), "Payload/A.app/Info.plist");
    assert_eq!(zip_name_from_relative_path(&strings(&["Payload", "A.app"]), true), "Payload/A.app/");
    assert_eq!(zip_name_from_relative_path(&strings(&[]), true), "");
    assert_eq!(zip_name_from_relative_path(&strings(&["a/"]), true), "a/");
}

#[test]
fn candidate_filter() {
    assert!(is_candidate_runner_zip("Runner.app-debug.zip", true));
    assert!(is_candidate_runner_zip("RUNNER.APP-DEBUG.ZIP", true));
    assert!(is_candidate_runner_zip("runner.app.zip", true));
    assert!(!is_candidate_runner_zip("notes.zip", true));
    assert!(!is_candidate_runner_zip("Runner.app-debug.zip", false));
    assert!(!is_candidate_runner_zip("Runner.app.tar", true));
}

#[test]
fn output_names() {
    assert!(is_valid_ipa_name("MyApp.ipa"));
    assert!(is_valid_ipa_name("MyApp.IPA"));
    assert!(!is_valid_ipa_name("MyApp.zip"));
    assert!(!is_valid_ipa_name("out/MyApp.ipa"));
    assert!(!is_valid_ipa_name("out\\MyApp.ipa"));
    assert!(!is_valid_ipa_name(""));
}

#[test]
fn components_are_resolved() {
    assert_eq!(path_components("a/b/c"), strings(&["a", "b", "c"]));
    assert_eq!(path_components("a//./b/"), strings(&["a", "b"]));
    assert_eq!(path_components("a/x/../b"), strings(&["a", "b"]));
    assert_eq!(path_components(""), strings(&[]));
}

fn node(path: &[&str], is_dir: bool) -> TreeEntry {
    TreeEntry { components: strings(path), is_dir, data: Vec::new() }
}

#[test]
fn locate_prefers_smallest_path() {
    let nodes = vec![node(&["b", "B.app", "Info.plist"], false), node(&["a", "Z.app", "Info.plist"], false)];
    assert_eq!(locate_bundle(&nodes), Some(strings(&["a", "Z.app"])));
    let none = vec![node(&["B.app", "readme"], false), node(&[".app", "Info.plist"], false)];
    assert_eq!(locate_bundle(&none), None);
}

#[test]
fn payload_lists_each_node_once() {
    let nodes = vec![
        node(&["S", "A.app"], true),
        node(&["S", "A.app", "Info.plist"], false),
        node(&["S", "A.app", "d", "f"], false),
        node(&["S", "A.app", "d"], true),
        node(&["other"], false),
    ];
    let out = assemble_payload(&nodes, &strings(&["S", "A.app"]));
    let paths: Vec<(Vec<String>, bool)> = out.iter().map(|e| (e.components.clone(), e.is_dir)).collect();
    assert_eq!(
        paths,
        vec![
            (strings(&["Payload"]), true),
            (strings(&["Payload", "A.app"]), true),
            (strings(&["Payload", "A.app", "Info.plist"]), false),
            (strings(&["Payload", "A.app", "d"]), true),
            (strings(&["Payload", "A.app", "d", "f"]), false),
        ]
    );
}

fn config(app: &str, ipa: &str) -> AutoCheckConfig {
    AutoCheckConfig {
        watch_dir: "/w".to_string(),
        output_dir: "/o".to_string(),
        app_name: app.to_string(),
        output_ipa_name: ipa.to_string(),
    }
}

#[test]
fn watch_config_checks() {
    assert_eq!(check_watch_config(&config("A", "A.ipa"), true, true), Ok(()));
    assert_eq!(check_watch_config(&config("A", "A.ipa"), false, true), Err("Watch directory is invalid: /w".to_string()));
    assert_eq!(check_watch_config(&config("A", "A.ipa"), true, false), Err("Output directory is invalid: /o".to_string()));
    assert_eq!(check_watch_config(&config("  ", "A.ipa"), true, true), Err("App name cannot be empty".to_string()));
    assert_eq!(check_watch_config(&config("A", "A.zip"), true, true), Err("Output IPA name must end with .ipa".to_string()));
    assert_eq!(check_watch_config(&config("A", ""), true, true), Err("Output IPA name must end with .ipa".to_string()));
    assert_eq!(
        check_watch_config(&config("A", "x/A.ipa"), true, true),
        Err("Output IPA name must be a file name, not a path".to_string())
    );
}

#[test]
fn growing_file_is_never_ready() {
    let mut t = StabilityTracker::new(15_000);
    let mut elapsed = 0;
    for len in 1..30u64 {
        let step = t.observe(elapsed, Probe::Present { len: len * 100, openable: true });
        if elapsed < 15_000 {
            assert_eq!(step, ReadyStep::Sleep(400));
        } else {
            assert_eq!(step, ReadyStep::TimedOut);
        }
        elapsed += 400;
    }
}

#[test]
fn stable_file_is_ready_at_second_probe() {
    let mut t = StabilityTracker::new(15_000);
    assert_eq!(t.observe(0, Probe::Present { len: 42, openable: true }), ReadyStep::Sleep(400));
    assert_eq!(t.observe(400, Probe::Present { len: 42, openable: true }), ReadyStep::Ready);
}

#[test]
fn unopenable_or_missing_file_waits() {
    let mut t = StabilityTracker::new(15_000);
    assert_eq!(t.observe(0, Probe::Missing), ReadyStep::Sleep(250));
    assert_eq!(t.observe(250, Probe::Present { len: 7, openable: false }), ReadyStep::Sleep(400));
    assert_eq!(t.observe(650, Probe::Present { len: 7, openable: false }), ReadyStep::Sleep(400));
    assert_eq!(t.observe(1050, Probe::Present { len: 7, openable: true }), ReadyStep::Ready);
    assert_eq!(t.observe(15_000, Probe::Present { len: 7, openable: true }), ReadyStep::TimedOut);
}

#[test]
fn enclosed_entry_names() {
    assert!(entry_name_is_enclosed("a/b/c.txt"));
    assert!(entry_name_is_enclosed("a/../b"));
    assert!(entry_name_is_enclosed("./a"));
    assert!(!entry_name_is_enclosed("../a"));
    assert!(!entry_name_is_enclosed("a/../../b"));
    assert!(!entry_name_is_enclosed("/a"));
    assert!(!entry_name_is_enclosed("a\0b"));
    assert!(entry_name_is_enclosed("a\\..\\b"));
}

#[test]
fn deadline_is_checked_before_probing() {
    let t = StabilityTracker::new(0);
    assert!(t.deadline_passed(0));
    let t = StabilityTracker::new(15_000);
    assert!(!t.deadline_passed(14_999));
    assert!(t.deadline_passed(15_000));
}
