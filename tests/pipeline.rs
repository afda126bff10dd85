use std::io::{Cursor, Read, Write};

use ipa_builder::archive::{check_request, repackage, validate_generated_ipa, IpaError};
use zip::write::FileOptions;
use zip::{CompressionMethod, ZipArchive, ZipWriter};

/// Builds an archive holding `<prefix>/<name>.app/` with an `Info.plist` and
/// an executable named after the app, directories included.
fn mock_app_zip(name: &str, prefix: Option<&str>) -> Vec<u8> {
    let mut zip = ZipWriter::new(Cursor::new(Vec::new()));
    let options = FileOptions::default().compression_method(CompressionMethod::Stored);
    let base = match prefix {
        Some(p) => {
            zip.add_directory(format!("{}/", p), options).unwrap();
            format!("{}/{}.app", p, name)
        }
        None => format!("{}.app", name),
    };
    zip.add_directory(format!("{}/", base), options).unwrap();
    zip.start_file(format!("{}/Info.plist", base), options).unwrap();
    zip.write_all(b"Mock Info.plist").unwrap();
    zip.start_file(format!("{}/{}", base, name), options).unwrap();
    zip.write_all(b"Mock executable").unwrap();
    zip.finish().unwrap().into_inner()
}

fn zip_of_files(files: &[(&str, &[u8])]) -> Vec<u8> {
    let mut zip = ZipWriter::new(Cursor::new(Vec::new()));
    for (name, data) in files {
        zip.start_file(*name, FileOptions::default()).unwrap();
        zip.write_all(data).unwrap();
    }
    zip.finish().unwrap().into_inner()
}

fn entry_names(bytes: &[u8]) -> Vec<String> {
    let mut archive = ZipArchive::new(Cursor::new(bytes.to_vec())).unwrap();
    let mut names = Vec::new();
    for i in 0..archive.len() {
        names.push(archive.by_index(i).unwrap().name().to_string());
    }
    names
}

fn entry_mode(bytes: &[u8], name: &str) -> u32 {
    let mut archive = ZipArchive::new(Cursor::new(bytes.to_vec())).unwrap();
    let file = archive.by_name(name).unwrap();
    file.unix_mode().unwrap() & 0o777
}

fn entry_data(bytes: &[u8], name: &str) -> Vec<u8> {
    let mut archive = ZipArchive::new(Cursor::new(bytes.to_vec())).unwrap();
    let mut file = archive.by_name(name).unwrap();
    let mut data = Vec::new();
    file.read_to_end(&mut data).unwrap();
    data
}

#[test]
fn test_simple_ipa_generation_runner_app() {
    let input = mock_app_zip("Runner", None);
    let app_name = "MyTestApp".to_string();
    let name = check_request(true, true, "input/TestRunner.app.zip", "output", &format!("{}.ipa", app_name));
    assert!(name.is_ok(), "check_request failed: {:?}", name.err());
    assert_eq!(name.unwrap(), "MyTestApp.ipa");

    let result = repackage(input, "input/TestRunner.app.zip");
    assert!(result.is_ok(), "generate_ipa failed: {:?}", result.err());
    let out = result.unwrap();

    let mut archive = ZipArchive::new(Cursor::new(out)).unwrap();
    assert!(archive.by_name("Payload/Runner.app/Info.plist").is_ok());
    assert!(archive.by_name("Payload/Runner.app/Runner").is_ok());
}

#[test]
fn test_nested_app_bundle_generation() {
    let input = mock_app_zip("MyProject", Some("SomeFolder"));
    let name = check_request(true, true, "input_nested/MyProject.app.zip", "output_nested", "NestedAppTest.ipa");
    assert_eq!(name.unwrap(), "NestedAppTest.ipa");

    let result = repackage(input, "input_nested/MyProject.app.zip");
    assert!(result.is_ok(), "generate_ipa for nested failed: {:?}", result.err());
    let out = result.unwrap();

    let mut archive = ZipArchive::new(Cursor::new(out.clone())).unwrap();
    assert!(archive.by_name("Payload/MyProject.app/Info.plist").is_ok());
    assert!(archive.by_name("Payload/MyProject.app/MyProject").is_ok());
    assert!(entry_names(&out).iter().all(|n| !n.contains("SomeFolder")));
}

#[test]
fn test_input_file_not_found() {
    let result = check_request(false, true, "non_existent_file.zip", "output_notfound", "NotFoundTest.ipa");
    assert!(matches!(result, Err(IpaError::InputFileNotFound(_))));
}

#[test]
fn test_app_bundle_not_found_in_zip() {
    let input = zip_of_files(&[("readme.txt", b"empty")]);
    let result = repackage(input, "input_no_app/Empty.zip");
    assert!(matches!(result, Err(IpaError::UnexpectedZipStructure(_))));
}

#[test]
fn exact_entries_for_root_bundle() {
    let out = repackage(mock_app_zip("Runner", None), "Runner.app.zip").unwrap();
    assert_eq!(
        entry_names(&out),
        vec!["Payload/", "Payload/Runner.app/", "Payload/Runner.app/Info.plist", "Payload/Runner.app/Runner"]
    );
    assert_eq!(entry_data(&out, "Payload/Runner.app/Runner"), b"Mock executable".to_vec());
}

#[test]
fn bundle_not_found_names_the_source() {
    let input = zip_of_files(&[("Runner.app/readme.txt", b"no marker")]);
    match repackage(input, "in/Runner.app.zip") {
        Err(IpaError::UnexpectedZipStructure(s)) => assert_eq!(s, "in/Runner.app.zip"),
        other => panic!("unexpected result: {:?}", other),
    }
}

#[test]
fn bundle_deeper_than_three_levels_is_not_found() {
    let input = zip_of_files(&[("a/b/c/Deep.app/Info.plist", b"plist")]);
    assert!(matches!(repackage(input, "deep.zip"), Err(IpaError::UnexpectedZipStructure(_))));
}

#[test]
fn bundle_three_levels_deep_is_found() {
    let input = zip_of_files(&[("a/b/Deep.app/Info.plist", b"plist")]);
    let out = repackage(input, "deep.zip").unwrap();
    assert_eq!(entry_names(&out), vec!["Payload/", "Payload/Deep.app/", "Payload/Deep.app/Info.plist"]);
}

#[test]
fn smallest_bundle_path_wins() {
    let input = zip_of_files(&[
        ("z/Zed.app/Info.plist", b"z"),
        ("b/Beta.app/Info.plist", b"b"),
        ("b/Alpha.app/Info.plist", b"a"),
    ]);
    let out = repackage(input, "many.zip").unwrap();
    assert_eq!(entry_names(&out), vec!["Payload/", "Payload/Alpha.app/", "Payload/Alpha.app/Info.plist"]);
}

#[test]
fn implicit_directories_are_listed_once() {
    let input = zip_of_files(&[
        ("X.app/Info.plist", b"p"),
        ("X.app/Frameworks/A.framework/A", b"a"),
        ("X.app/Frameworks/B.dylib", b"b"),
    ]);
    let out = repackage(input, "x.zip").unwrap();
    assert_eq!(
        entry_names(&out),
        vec![
            "Payload/",
            "Payload/X.app/",
            "Payload/X.app/Info.plist",
            "Payload/X.app/Frameworks/",
            "Payload/X.app/Frameworks/A.framework/",
            "Payload/X.app/Frameworks/A.framework/A",
            "Payload/X.app/Frameworks/B.dylib",
        ]
    );
}

#[test]
fn repeated_file_keeps_last_copy() {
    let input = zip_of_files(&[("X.app/Info.plist", b"first"), ("X.app/Info.plist", b"second")]);
    let out = repackage(input, "x.zip").unwrap();
    assert_eq!(entry_names(&out), vec!["Payload/", "Payload/X.app/", "Payload/X.app/Info.plist"]);
    assert_eq!(entry_data(&out, "Payload/X.app/Info.plist"), b"second".to_vec());
}

#[test]
fn permissions_follow_content_and_extension() {
    let input = zip_of_files(&[
        ("X.app/Info.plist", b"text"),
        ("X.app/X", &[0xCF, 0xFA, 0xED, 0xFE, 7, 0, 0, 1]),
        ("X.app/libfoo.dylib", b"not a header"),
        ("X.app/notes.txt", b"plain text"),
    ]);
    let out = repackage(input, "x.zip").unwrap();
    assert_eq!(entry_mode(&out, "Payload/X.app/X"), 0o755);
    assert_eq!(entry_mode(&out, "Payload/X.app/libfoo.dylib"), 0o755);
    assert_eq!(entry_mode(&out, "Payload/X.app/notes.txt"), 0o644);
    assert_eq!(entry_mode(&out, "Payload/X.app/Info.plist"), 0o644);
    assert_eq!(entry_mode(&out, "Payload/X.app/"), 0o755);
    assert_eq!(entry_mode(&out, "Payload/"), 0o755);
}

#[test]
fn directories_are_stored_and_files_deflated() {
    let out = repackage(mock_app_zip("Runner", None), "r.zip").unwrap();
    let mut archive = ZipArchive::new(Cursor::new(out)).unwrap();
    assert_eq!(archive.by_name("Payload/Runner.app/").unwrap().compression(), CompressionMethod::Stored);
    assert_eq!(archive.by_name("Payload/Runner.app/Runner").unwrap().compression(), CompressionMethod::Deflated);
}

#[test]
fn repackaging_twice_gives_the_same_valid_archive() {
    let first = repackage(mock_app_zip("Runner", None), "r.zip").unwrap();
    let second = repackage(mock_app_zip("Runner", None), "r.zip").unwrap();
    assert!(validate_generated_ipa(&first).is_ok());
    assert!(validate_generated_ipa(&second).is_ok());
    assert_eq!(first, second);
}

#[test]
fn entry_climbing_out_is_refused() {
    let input = zip_of_files(&[("../evil.txt", b"x"), ("X.app/Info.plist", b"p")]);
    match repackage(input, "evil.zip") {
        Err(IpaError::UnsafeEntryPath(n)) => assert_eq!(n, "../evil.txt"),
        other => panic!("unexpected result: {:?}", other),
    }
}

#[test]
fn dot_components_are_resolved() {
    let input = zip_of_files(&[("./X.app/sub/../Info.plist", b"p")]);
    let out = repackage(input, "x.zip").unwrap();
    assert_eq!(entry_names(&out), vec!["Payload/", "Payload/X.app/", "Payload/X.app/Info.plist"]);
}

#[test]
fn garbage_input_is_a_zip_error() {
    assert!(matches!(repackage(b"not an archive".to_vec(), "g.zip"), Err(IpaError::Zip(_))));
}

#[test]
fn validation_rejects_archive_without_marker() {
    let bytes = zip_of_files(&[("Payload/X.app/readme.txt", b"x")]);
    match validate_generated_ipa(&bytes) {
        Err(IpaError::InvalidIpaStructure(m)) => assert_eq!(m, "Missing Payload/<App>.app/Info.plist"),
        other => panic!("unexpected result: {:?}", other),
    }
    let split = zip_of_files(&[("Payload/", b""), ("Payload/Info.plist", b"x"), ("Runner.app/Info.plist", b"x")]);
    assert!(matches!(validate_generated_ipa(&split), Err(IpaError::InvalidIpaStructure(_))));
    let good = zip_of_files(&[("Payload/X.app/Info.plist", b"x")]);
    assert!(validate_generated_ipa(&good).is_ok());
}

#[test]
fn request_checks_in_order() {
    assert!(matches!(check_request(true, false, "in.zip", "out", "A.ipa"), Err(IpaError::OutputDirectoryInvalid(d)) if d == "out"));
    assert!(matches!(check_request(true, true, "in.zip", "out", "A.zip"), Err(IpaError::InvalidIpaName(_))));
    assert!(matches!(check_request(true, true, "in.zip", "out", "dir/A.ipa"), Err(IpaError::InvalidIpaName(_))));
    assert!(matches!(check_request(true, true, "in.zip", "out", "dir\\A.ipa"), Err(IpaError::InvalidIpaName(_))));
    assert!(matches!(check_request(true, true, "in.zip", "out", "   "), Err(IpaError::InvalidIpaName(_))));
    assert_eq!(check_request(true, true, "in.zip", "out", "  My App.IPA ").unwrap(), "My App.IPA");
}

#[test]
fn absolute_entry_is_refused() {
    let input = zip_of_files(&[("X.app/Info.plist", b"p"), ("/etc/passwd", b"x")]);
    assert!(matches!(repackage(input, "abs.zip"), Err(IpaError::UnsafeEntryPath(n)) if n == "/etc/passwd"));
}

#[test]
fn marker_directory_is_not_a_valid_bundle_output() {
    let mut zip = ZipWriter::new(Cursor::new(Vec::new()));
    zip.add_directory("X.app/Info.plist/", FileOptions::default()).unwrap();
    let input = zip.finish().unwrap().into_inner();
    assert!(matches!(repackage(input, "dir.zip"), Err(IpaError::InvalidIpaStructure(_))));
}
