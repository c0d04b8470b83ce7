use kerml_text::digest::{AuthenticatedInput, AuthenticatedReadError, InnerRead, InputRejection, ReadPlan};
use sha2::{Digest, Sha256};
use std::io::{self, Cursor, ErrorKind, Read, Write};
use zip::{write::SimpleFileOptions, ZipArchive, ZipWriter};

/// A reader that drives the verified state machine over an inner reader.
struct Authenticated<R> {
    inner: R,
    state: AuthenticatedInput,
}

impl<R: Read> Authenticated<R> {
    fn new(inner: R, expected: u64) -> Result<Self, AuthenticatedReadError> {
        Ok(Authenticated { inner, state: AuthenticatedInput::new(expected)? })
    }

    fn finish(self) -> Result<[u8; 32], AuthenticatedReadError> {
        self.state.finish()
    }
}

impl<R: Read> Read for Authenticated<R> {
    fn read(&mut self, buffer: &mut [u8]) -> io::Result<usize> {
        match self.state.plan_read(buffer.len()) {
            ReadPlan::Reject(AuthenticatedReadError::Invalid(reason)) => {
                Err(io::Error::new(ErrorKind::InvalidData, reason.message()))
            }
            ReadPlan::Reject(AuthenticatedReadError::Inner { .. }) => {
                Err(io::Error::new(ErrorKind::InvalidData, "inner failure"))
            }
            ReadPlan::Empty => Ok(0),
            ReadPlan::Read(limit) => match self.inner.read(&mut buffer[..limit]) {
                Ok(count) => match self.state.complete_read(InnerRead::Filled(count), &buffer[..count]) {
                    Ok(count) => Ok(count),
                    Err(AuthenticatedReadError::Invalid(reason)) => {
                        Err(io::Error::new(ErrorKind::InvalidData, reason.message()))
                    }
                    Err(AuthenticatedReadError::Inner { .. }) => unreachable!(),
                },
                Err(error) => {
                    let interrupted = error.kind() == ErrorKind::Interrupted;
                    let _ = self.state.complete_read(InnerRead::Failed { interrupted }, &[]);
                    Err(error)
                }
            },
        }
    }
}

#[test]
fn exact_digest_survives_short_reads_and_interruption() {
    struct Chunks<'a>(&'a [u8], usize);
    impl Read for Chunks<'_> {
        fn read(&mut self, buffer: &mut [u8]) -> io::Result<usize> {
            self.1 += 1;
            if self.1 % 4 == 0 {
                return Err(io::Error::from(ErrorKind::Interrupted));
            }
            let limit = (self.1 % 7 + 1).min(buffer.len());
            self.0.read(&mut buffer[..limit])
        }
    }
    let bytes = b"exact bytes including CRLF\r\n and final LF\n";
    let mut input = Authenticated::new(Chunks(bytes, 0), bytes.len() as u64).unwrap();
    let mut decoded = Vec::new();
    input.read_to_end(&mut decoded).unwrap();
    assert_eq!(decoded, bytes);
    assert_eq!(input.finish().unwrap(), <[u8; 32]>::from(Sha256::digest(bytes)));
}

#[test]
fn requires_real_eof_and_exact_size_even_after_empty_read() {
    let mut input = Authenticated::new(Cursor::new(b"abc"), 3).unwrap();
    input.read_exact(&mut [0; 3]).unwrap();
    assert_eq!(input.read(&mut []).unwrap(), 0);
    assert!(input.finish().is_err());
    let input = Authenticated::new(Cursor::new(b""), 0).unwrap();
    assert!(input.finish().is_err());
    let mut input = Authenticated::new(Cursor::new(b""), 0).unwrap();
    assert_eq!(input.read(&mut [0; 1]).unwrap(), 0);
    assert_eq!(input.finish().unwrap(), <[u8; 32]>::from(Sha256::digest(b"")));
    assert!(Authenticated::new(Cursor::new(b""), u64::MAX).is_err());
}

#[test]
fn rejects_short_and_excess_streams_with_bounded_reads() {
    let mut short = Authenticated::new(Cursor::new(b"abc"), 4).unwrap();
    short.read_to_end(&mut Vec::new()).unwrap();
    assert!(short.finish().is_err());
    let mut source = Cursor::new(b"0123456789");
    let mut excess = Authenticated::new(&mut source, 3).unwrap();
    assert_eq!(excess.read(&mut [0; 10]).unwrap_err().kind(), ErrorKind::InvalidData);
    assert!(excess.finish().is_err());
    assert_eq!(source.position(), 4);
}

#[test]
fn a_decoder_cannot_swallow_a_failed_integrity_read() {
    struct Broken;
    impl Read for Broken {
        fn read(&mut self, _: &mut [u8]) -> io::Result<usize> {
            Err(io::Error::new(ErrorKind::InvalidData, "CRC mismatch"))
        }
    }
    let mut input = Authenticated::new(Broken, 0).unwrap();
    assert!(input.read(&mut [0; 1]).is_err());
    assert!(input.finish().is_err());
}

#[test]
fn zip_crc_failure_is_not_hidden_by_exact_length_or_buffering() {
    let payload = b"authentic graph payload";
    let mut archive = ZipWriter::new(Cursor::new(Vec::new()));
    archive
        .start_file(
            "graph",
            SimpleFileOptions::default().compression_method(zip::CompressionMethod::Stored),
        )
        .unwrap();
    archive.write_all(payload).unwrap();
    let bytes = archive.finish().unwrap().into_inner();
    let mut original = ZipArchive::new(Cursor::new(bytes.clone())).unwrap();
    let offset = original.by_index_raw(0).unwrap().data_start().unwrap() as usize;
    let mut corrupt = bytes;
    corrupt[offset] ^= 1;
    let mut archive = ZipArchive::new(Cursor::new(corrupt)).unwrap();
    let entry = archive.by_name("graph").unwrap();
    assert_eq!(entry.size(), payload.len() as u64);
    let mut input = Authenticated::new(entry, payload.len() as u64).unwrap();
    assert!(input.read_to_end(&mut Vec::new()).is_err());
    assert!(input.finish().is_err());
}

#[test]
fn rejection_reasons_are_distinct() {
    assert!(matches!(
        AuthenticatedInput::new(u64::MAX),
        Err(AuthenticatedReadError::Invalid(InputRejection::SizeOverflow))
    ));
    let mut input = AuthenticatedInput::new(1).unwrap();
    assert_eq!(input.plan_read(8), ReadPlan::Read(2));
    assert_eq!(input.plan_read(0), ReadPlan::Empty);
    assert_eq!(
        input.complete_read(InnerRead::Filled(2), b"ab"),
        Err(AuthenticatedReadError::Invalid(InputRejection::ExceedsTrustedCount))
    );
    assert_eq!(
        input.plan_read(8),
        ReadPlan::Reject(AuthenticatedReadError::Invalid(InputRejection::PreviouslyFailed))
    );
    assert_eq!(
        input.finish(),
        Err(AuthenticatedReadError::Invalid(InputRejection::CountEofOrFailure))
    );
}

#[test]
fn interrupted_reads_are_retryable_and_other_failures_are_final() {
    let mut input = AuthenticatedInput::new(2).unwrap();
    assert_eq!(
        input.complete_read(InnerRead::Failed { interrupted: true }, &[]),
        Err(AuthenticatedReadError::Inner { interrupted: true })
    );
    assert_eq!(input.plan_read(4), ReadPlan::Read(3));
    assert_eq!(input.complete_read(InnerRead::Filled(2), b"ok"), Ok(2));
    assert_eq!(input.complete_read(InnerRead::Filled(0), &[]), Ok(0));
    assert_eq!(input.plan_read(4), ReadPlan::Empty);
    assert_eq!(input.finish().unwrap(), <[u8; 32]>::from(Sha256::digest(b"ok")));
    let mut failed = AuthenticatedInput::new(2).unwrap();
    let _ = failed.complete_read(InnerRead::Failed { interrupted: false }, &[]);
    assert!(matches!(failed.plan_read(4), ReadPlan::Reject(_)));
}
