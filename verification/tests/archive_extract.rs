use epubimg::extract::{extract_from_bytes, ExtractError};
use std::collections::HashMap;
use std::io::{Cursor, Write};
use zip::write::SimpleFileOptions;
use zip::{CompressionMethod, ZipWriter};

fn archive_with(entries: &[(&str, Option<&[u8]>)]) -> Vec<u8> {
    let mut w = ZipWriter::new(Cursor::new(Vec::new()));
    let opts = SimpleFileOptions::default();
    for (name, data) in entries {
        match data {
            Some(d) => {
                w.start_file(*name, opts).unwrap();
                w.write_all(d).unwrap();
            }
            None => {
                w.add_directory(*name, opts).unwrap();
            }
        }
    }
    w.finish().unwrap().into_inner()
}

#[test]
fn only_image_files_are_extracted() {
    let bytes = archive_with(&[
        ("img", None),
        ("img/a.png", Some(b"png bytes")),
        ("img/b.txt", Some(b"text")),
        ("img/c.jpg", Some(b"jpg bytes")),
    ]);
    let images = extract_from_bytes(bytes).unwrap();
    assert_eq!(images.len(), 2);
    assert_eq!(images[0].name, "a.png");
    assert_eq!(images[0].data, b"png bytes".to_vec());
    assert_eq!(images[1].name, "c.jpg");
    assert_eq!(images[1].data, b"jpg bytes".to_vec());
}

#[test]
fn archive_folders_are_flattened() {
    let bytes = archive_with(&[("deep/nested/pic.jpg", Some(b"p"))]);
    let images = extract_from_bytes(bytes).unwrap();
    assert_eq!(images.len(), 1);
    assert_eq!(images[0].name, "pic.jpg");
}

#[test]
fn later_entry_of_the_same_basename_wins() {
    let bytes = archive_with(&[
        ("one/x.png", Some(b"first")),
        ("two/x.png", Some(b"second")),
    ]);
    let images = extract_from_bytes(bytes).unwrap();
    assert_eq!(images.len(), 2);
    assert_eq!(images[0].name, "x.png");
    assert_eq!(images[1].name, "x.png");
    // Writing the images in order leaves one file, with the later data.
    let mut dir: HashMap<String, Vec<u8>> = HashMap::new();
    for img in &images {
        dir.insert(img.name.clone(), img.data.clone());
    }
    assert_eq!(dir.len(), 1);
    assert_eq!(dir["x.png"], b"second".to_vec());
}

#[test]
fn empty_archive_yields_no_images() {
    let bytes = archive_with(&[]);
    let images = extract_from_bytes(bytes).unwrap();
    assert_eq!(images.len(), 0);
}

#[test]
fn bytes_that_are_no_archive_are_refused() {
    let r = extract_from_bytes(b"this is not a zip file at all".to_vec());
    assert!(matches!(r, Err(ExtractError::InvalidArchive(_))));
}

#[test]
fn a_corrupt_entry_aborts_the_archive() {
    let mut w = ZipWriter::new(Cursor::new(Vec::new()));
    let opts = SimpleFileOptions::default().compression_method(CompressionMethod::Stored);
    w.start_file("a.png", opts).unwrap();
    w.write_all(b"0123456789abcdef").unwrap();
    let mut bytes = w.finish().unwrap().into_inner();
    // Flip one byte of the stored entry data so its checksum no longer holds.
    let pos = bytes
        .windows(16)
        .position(|win| win == b"0123456789abcdef")
        .unwrap();
    bytes[pos] ^= 0xff;
    let r = extract_from_bytes(bytes);
    assert!(matches!(r, Err(ExtractError::EntryRead(_))));
}

#[test]
fn symlink_entries_are_skipped() {
    let mut w = ZipWriter::new(Cursor::new(Vec::new()));
    let opts = SimpleFileOptions::default();
    w.start_file("img/a.png", opts).unwrap();
    w.write_all(b"real").unwrap();
    w.add_symlink("img/link.png", "a.png", opts).unwrap();
    let bytes = w.finish().unwrap().into_inner();
    let images = extract_from_bytes(bytes).unwrap();
    assert_eq!(images.len(), 1);
    assert_eq!(images[0].name, "a.png");
}

#[test]
fn error_text_is_carried() {
    let r = extract_from_bytes(Vec::new());
    match r {
        Err(e @ ExtractError::InvalidArchive(_)) => {
            assert!(!e.text().is_empty());
        }
        other => panic!("expected an invalid-archive error, got {:?}", other.is_ok()),
    }
}
