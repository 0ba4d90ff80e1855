use std::io::{Cursor, Read, Write};

use linkpage::archive::{plan_extraction, ArchiveEntry, FsAction};
use linkpage::bundle::{export_zip, get_export_zip_base64, package_entries, BundleEntry, ExportAction, TreeNode};

fn file_node(path: &str, data: &[u8]) -> TreeNode {
    TreeNode { path: path.as_bytes().to_vec(), file: Some(data.to_vec()) }
}

fn dir_node(path: &str) -> TreeNode {
    TreeNode { path: path.as_bytes().to_vec(), file: None }
}

#[test]
fn package_entries_files_and_directory_markers() {
    let nodes = vec![
        dir_node("css"),
        file_node("index.html", b"<html></html>"),
        file_node("css/site.css", b"body{}"),
    ];
    let entries = package_entries(&nodes);
    assert_eq!(entries.len(), 3);
    assert_eq!(entries[0].name, b"css/".to_vec());
    assert!(entries[0].data.is_none());
    assert_eq!(entries[1].name, b"index.html".to_vec());
    assert_eq!(entries[1].data, Some(b"<html></html>".to_vec()));
    assert_eq!(entries[2].name, b"css/site.css".to_vec());
    assert_eq!(entries[2].data, Some(b"body{}".to_vec()));
}

#[test]
fn export_base64_of_known_bytes() {
    assert_eq!(get_export_zip_base64(&b"hello".to_vec()), "aGVsbG8=".to_string());
    assert_eq!(get_export_zip_base64(&b"hi".to_vec()), "aGk=".to_string());
    assert_eq!(get_export_zip_base64(&Vec::new()), "".to_string());
    assert_eq!(get_export_zip_base64(&vec![0u8, 255u8, 16u8]), "AP8Q".to_string());
}

#[test]
fn export_zip_cancelled_prompt_copies_nothing() {
    match export_zip(None) {
        ExportAction::Cancelled => {},
        ExportAction::CopyTo { .. } => panic!("a cancelled prompt must not copy"),
    }
}

#[test]
fn export_zip_chosen_destination_is_copied_to() {
    match export_zip(Some(b"/home/ada/website.zip".to_vec())) {
        ExportAction::CopyTo { dest } => assert_eq!(dest, b"/home/ada/website.zip".to_vec()),
        ExportAction::Cancelled => panic!("a chosen destination must be copied to"),
    }
}

/// Write the packaged entries through the same zip writer the application
/// uses, read the archive back, and check the round trip is exact.
fn zip_bytes(entries: &[BundleEntry]) -> Vec<u8> {
    let mut w = zip::ZipWriter::new(Cursor::new(Vec::new()));
    let opts = zip::write::FileOptions::default()
        .compression_method(zip::CompressionMethod::Deflated);
    for e in entries {
        let name = String::from_utf8(e.name.clone()).unwrap();
        match &e.data {
            Some(data) => {
                w.start_file(name, opts).unwrap();
                w.write_all(data).unwrap();
            }
            None => {
                w.add_directory(name.trim_end_matches('/'), opts).unwrap();
            }
        }
    }
    w.finish().unwrap().into_inner()
}

fn read_zip_entries(bytes: &[u8]) -> Vec<ArchiveEntry> {
    let mut archive = zip::ZipArchive::new(Cursor::new(bytes.to_vec())).unwrap();
    let mut out = Vec::new();
    for i in 0..archive.len() {
        let mut f = archive.by_index(i).unwrap();
        let mut data = Vec::new();
        f.read_to_end(&mut data).unwrap();
        out.push(ArchiveEntry { name: f.name().as_bytes().to_vec(), data, mode: f.unix_mode() });
    }
    out
}

#[test]
fn bundle_round_trip_through_zip() {
    let nodes = vec![
        dir_node("assets"),
        file_node("index.html", b"<html>Ada</html>"),
        file_node("assets/a.txt", b"alpha"),
    ];
    let entries = package_entries(&nodes);
    let bytes = zip_bytes(&entries);
    let back = read_zip_entries(&bytes);
    assert_eq!(back.len(), 3);
    assert_eq!(back[0].name, b"assets/".to_vec());
    assert_eq!(back[0].data, Vec::<u8>::new());
    assert_eq!(back[1].name, b"index.html".to_vec());
    assert_eq!(back[1].data, b"<html>Ada</html>".to_vec());
    assert_eq!(back[2].name, b"assets/a.txt".to_vec());
    assert_eq!(back[2].data, b"alpha".to_vec());
}

#[test]
fn extraction_plan_keeps_non_escaping_entries_and_skips_escaping_ones() {
    let entries = vec![
        ArchiveEntry { name: b"site/".to_vec(), data: Vec::new(), mode: Some(0o755) },
        ArchiveEntry { name: b"site/index.html".to_vec(), data: b"<html>".to_vec(), mode: Some(0o644) },
        ArchiveEntry { name: b"../evil".to_vec(), data: b"x".to_vec(), mode: None },
        ArchiveEntry { name: b"/abs".to_vec(), data: b"y".to_vec(), mode: None },
        ArchiveEntry { name: b"a/../b".to_vec(), data: b"z".to_vec(), mode: None },
    ];
    let plan = plan_extraction(&entries);
    assert_eq!(plan.len(), 3);
    match &plan[0] {
        FsAction::MakeDir { path, mode } => {
            assert_eq!(path, &b"site/".to_vec());
            assert_eq!(mode, &Some(0o755));
        }
        FsAction::WriteFile { .. } => panic!("a trailing-slash marker must become a directory"),
    }
    match &plan[1] {
        FsAction::WriteFile { path, data, mode } => {
            assert_eq!(path, &b"site/index.html".to_vec());
            assert_eq!(data, &b"<html>".to_vec());
            assert_eq!(mode, &Some(0o644));
        }
        FsAction::MakeDir { .. } => panic!("a file entry must become a file write"),
    }
    // `a/../b` resolves inside the destination, so it is extracted.
    match &plan[2] {
        FsAction::WriteFile { path, data, .. } => {
            assert_eq!(path, &b"a/../b".to_vec());
            assert_eq!(data, &b"z".to_vec());
        }
        FsAction::MakeDir { .. } => panic!("a non-escaping file entry must be kept"),
    }
}

#[test]
fn extraction_plan_of_template_zip_round_trip() {
    let nodes = vec![dir_node("tpl"), file_node("tpl/page.html", b"<p>hi</p>")];
    let bytes = zip_bytes(&package_entries(&nodes));
    let entries = read_zip_entries(&bytes);
    let plan = plan_extraction(&entries);
    assert_eq!(plan.len(), 2);
    match &plan[1] {
        FsAction::WriteFile { path, data, .. } => {
            assert_eq!(path, &b"tpl/page.html".to_vec());
            assert_eq!(data, &b"<p>hi</p>".to_vec());
        }
        FsAction::MakeDir { .. } => panic!("the file entry must survive the round trip"),
    }
}
