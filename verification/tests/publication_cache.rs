use kerml_text::digest::{bounded_digest_limit, bounded_digest_result, check_entry_size, DigestWriter};
use kerml_text::publication::{check_entries, SystemsPublicationCacheError};
use sha2::{Digest, Sha256};
use std::io::{Cursor, Read, Seek, Write};
use zip::{write::SimpleFileOptions, ZipArchive, ZipWriter};

const ENTRIES: [&str; 3] = ["closure.json", "facade.json", "kernel.jsonl"];

fn bounded_digest(reader: impl Read, expected_bytes: u64) -> Result<[u8; 32], SystemsPublicationCacheError> {
    let limit = bounded_digest_limit(expected_bytes)?;
    let mut bounded = reader.take(limit);
    let mut writer = DigestWriter::new();
    let mut buffer = [0u8; 4];
    loop {
        let count = bounded.read(&mut buffer).unwrap();
        if count == 0 {
            break;
        }
        assert!(writer.bytes().checked_add(count as u64).is_some());
        writer.write(&buffer[..count]);
    }
    bounded_digest_result(writer, expected_bytes)
}

fn archive(names: &[&str]) -> Vec<u8> {
    let mut writer = ZipWriter::new(Cursor::new(vec![]));
    for name in names {
        writer
            .start_file(*name, SimpleFileOptions::default().compression_method(zip::CompressionMethod::Stored))
            .unwrap();
        writer.write_all(b"{}").unwrap();
    }
    writer.finish().unwrap().into_inner()
}

fn listed<R: Read + Seek>(archive: &mut ZipArchive<R>) -> Vec<(String, bool)> {
    (0..archive.len())
        .map(|index| {
            let entry = archive.by_index(index).unwrap();
            (entry.name().unwrap().to_string(), entry.is_dir())
        })
        .collect()
}

fn entry_digest<R: Read + Seek>(archive: &mut ZipArchive<R>, name: &str, expected: u64) -> Result<[u8; 32], String> {
    let entry = archive.by_name(name).map_err(|e| e.to_string())?;
    check_entry_size(entry.size(), expected).map_err(|e| format!("{e:?}"))?;
    bounded_digest(entry, expected).map_err(|e| format!("{e:?}"))
}

#[test]
fn bounded_stream_hash_rejects_short_and_excess_input_without_reading_past_limit() {
    let bytes = b"0123456789";
    let mut cursor = Cursor::new(bytes);
    assert!(bounded_digest(&mut cursor, 3).is_err());
    assert_eq!(cursor.position(), 4);
    assert!(bounded_digest(Cursor::new(bytes), 11).is_err());
    assert_eq!(bounded_digest(Cursor::new(bytes), 10).unwrap(), <[u8; 32]>::from(Sha256::digest(bytes)));
    assert!(bounded_digest(Cursor::new(bytes), u64::MAX).is_err());
}

#[test]
fn bounded_digest_errors_name_their_cause() {
    assert_eq!(
        bounded_digest_limit(u64::MAX),
        Err(SystemsPublicationCacheError::Mismatch("archive entry size overflow"))
    );
    assert_eq!(bounded_digest_limit(9), Ok(10));
    assert_eq!(
        bounded_digest(Cursor::new(b"abc"), 2),
        Err(SystemsPublicationCacheError::Mismatch("actual archive entry byte count"))
    );
    assert_eq!(check_entry_size(3, 3), Ok(()));
    assert_eq!(check_entry_size(3, 2), Err(SystemsPublicationCacheError::Mismatch("archive entry byte count")));
    let mut writer = DigestWriter::new();
    assert_eq!(writer.write(b"ab"), 2);
    assert_eq!(writer.write(b"c"), 1);
    assert_eq!(writer.bytes(), 3);
    assert_eq!(writer.finalize(), <[u8; 32]>::from(Sha256::digest(b"abc")));
}

#[test]
fn systems_archive_rejects_missing_extra_alias_and_duplicate_entries() {
    let mut valid = ZipArchive::new(Cursor::new(archive(&ENTRIES))).unwrap();
    assert!(check_entries(&listed(&mut valid)).is_ok());
    for names in [
        vec!["closure.json", "facade.json"],
        vec!["closure.json", "facade.json", "kernel.jsonl", "receipt.json"],
        vec!["closure.json", "facade.json", "nested/kernel.jsonl"],
        vec!["closure.json", "facade.json", "kernel.jsonl/"],
    ] {
        let mut input = ZipArchive::new(Cursor::new(archive(&names))).unwrap();
        assert!(check_entries(&listed(&mut input)).is_err());
    }
    let mut duplicate = archive(&ENTRIES);
    let name = b"kernel.jsonl";
    for index in 0..=duplicate.len() - name.len() {
        if &duplicate[index..index + name.len()] == name {
            duplicate[index..index + name.len()].copy_from_slice(b"closure.json");
        }
    }
    if let Ok(mut input) = ZipArchive::new(Cursor::new(duplicate)) {
        assert!(check_entries(&listed(&mut input)).is_err());
    }
}

#[test]
fn archive_entry_errors_distinguish_shape_from_population() {
    let duplicate = vec![
        ("closure.json".to_string(), false),
        ("closure.json".to_string(), false),
        ("kernel.jsonl".to_string(), false),
    ];
    assert_eq!(
        check_entries(&duplicate),
        Err(SystemsPublicationCacheError::Mismatch("archive duplicate or directory"))
    );
    let directory = vec![("closure.json".to_string(), true)];
    assert_eq!(
        check_entries(&directory),
        Err(SystemsPublicationCacheError::Mismatch("archive duplicate or directory"))
    );
    let missing = vec![("closure.json".to_string(), false)];
    assert_eq!(check_entries(&missing), Err(SystemsPublicationCacheError::Mismatch("archive entries")));
}

#[test]
fn systems_archive_checks_declared_and_actual_entry_bounds() {
    let bytes = archive(&ENTRIES);
    let mut input = ZipArchive::new(Cursor::new(&bytes)).unwrap();
    assert_eq!(entry_digest(&mut input, "kernel.jsonl", 2).unwrap(), <[u8; 32]>::from(Sha256::digest(b"{}")));
    assert!(entry_digest(&mut input, "kernel.jsonl", 1).is_err());
    assert!(entry_digest(&mut input, "kernel.jsonl", 3).is_err());
    assert!(ZipArchive::new(Cursor::new(&bytes[..bytes.len() / 2])).is_err());
}
