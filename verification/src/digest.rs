//! Bounded SHA-256 authentication of exactly the bytes a decoder consumed,
//! including its EOF probe. This authenticates transport only; accepted graph
//! and context checks stay separate.
use crate::publication::SystemsPublicationCacheError;
use sha2::{Digest, Sha256};
use vstd::prelude::*;

verus! {

#[verifier::external_type_specification]
#[verifier::external_body]
pub struct ExSha256(Sha256);

/// Everything a SHA-256 hasher has absorbed so far, in order.
pub uninterp spec fn sha256_absorbed(hasher: Sha256) -> Seq<u8>;

/// The SHA-256 digest of a byte sequence.
pub uninterp spec fn sha256_digest(data: Seq<u8>) -> Seq<u8>;

/// `<Sha256 as Digest>::new`: a fresh hasher has absorbed nothing.
#[verifier::external_body]
fn sha256_new() -> (hasher: Sha256)
    ensures
        sha256_absorbed(hasher) == Seq::<u8>::empty(),
{
    Sha256::new()
}

/// `<Sha256 as Digest>::update`: appends `data` to what the hasher absorbed.
#[verifier::external_body]
fn sha256_update(hasher: &mut Sha256, data: &[u8])
    ensures
        sha256_absorbed(*final(hasher)) == sha256_absorbed(*old(hasher)) + data@,
{
    hasher.update(data)
}

/// `<Sha256 as Digest>::finalize`, converted to a 32-byte array: the digest
/// of exactly the absorbed bytes.
#[verifier::external_body]
fn sha256_finalize(hasher: Sha256) -> (digest: [u8; 32])
    ensures
        digest@ == sha256_digest(sha256_absorbed(hasher)),
{
    hasher.finalize().into()
}

/// The SHA-256 digest of `data`.
pub fn sha256_of(data: &[u8]) -> (digest: [u8; 32])
    ensures
        digest@ == sha256_digest(data@),
{
    let mut hasher = sha256_new();
    sha256_update(&mut hasher, data);
    proof {
        assert(Seq::<u8>::empty() + data@ =~= data@);
    }
    sha256_finalize(hasher)
}

/// Why an authenticated stream was rejected.
#[derive(Clone, Copy, Debug, PartialEq, Eq, Structural)]
pub enum InputRejection {
    /// The trusted byte count leaves no room for the EOF probe.
    SizeOverflow,
    /// A read after an earlier integrity failure.
    PreviouslyFailed,
    /// The stream produced more bytes than the trusted count.
    ExceedsTrustedCount,
    /// Finishing without exact size, real EOF, or after a failure.
    CountEofOrFailure,
}

impl InputRejection {
    /// Human-readable reason.
    pub fn message(self) -> (text: &'static str)
        ensures
            text@ == match self {
                InputRejection::SizeOverflow => "authenticated input size overflow"@,
                InputRejection::PreviouslyFailed => "authenticated input previously failed"@,
                InputRejection::ExceedsTrustedCount => "authenticated input exceeds trusted byte count"@,
                InputRejection::CountEofOrFailure => "authenticated input byte count, EOF or I/O failure"@,
            },
    {
        match self {
            InputRejection::SizeOverflow => "authenticated input size overflow",
            InputRejection::PreviouslyFailed => "authenticated input previously failed",
            InputRejection::ExceedsTrustedCount => "authenticated input exceeds trusted byte count",
            InputRejection::CountEofOrFailure => "authenticated input byte count, EOF or I/O failure",
        }
    }
}

/// Failure of one authenticated read: either this layer's own rejection
/// (invalid data) or the inner reader's error, passed through unchanged.
#[derive(Clone, Copy, Debug, PartialEq, Eq, Structural)]
pub enum AuthenticatedReadError {
    Invalid(InputRejection),
    /// The inner reader failed; `interrupted` tells a retryable interruption.
    Inner { interrupted: bool },
}

/// An invalid-data failure for the given reason.
pub fn invalid(reason: InputRejection) -> (error: AuthenticatedReadError)
    ensures
        error == AuthenticatedReadError::Invalid(reason),
{
    AuthenticatedReadError::Invalid(reason)
}

/// What the inner reader reported for one bounded read.
#[derive(Clone, Copy, Debug, PartialEq, Eq, Structural)]
pub enum InnerRead {
    /// `count` bytes were placed at the front of the bounded buffer.
    Filled(usize),
    /// The inner reader failed; `interrupted` tells a retryable interruption.
    Failed { interrupted: bool },
}

/// What a read must do before touching the inner reader.
#[derive(Clone, Copy, Debug, PartialEq, Eq, Structural)]
pub enum ReadPlan {
    /// Reject without reading.
    Reject(AuthenticatedReadError),
    /// Report zero bytes without reading (empty buffer or real EOF seen).
    Empty,
    /// Read into at most this many bytes of the caller's buffer.
    Read(usize),
}

/// The observable state of an authenticated input: the expected byte count,
/// the bytes handed out (counting an excess read), the bytes authenticated in
/// order, whether real EOF was seen, and whether the input failed.
pub type InputState = (u64, int, Seq<u8>, bool, bool);

/// One read: the caller's buffer length, what the inner reader reported, and
/// the bytes it placed at the front of the bounded buffer.
pub type ReadEvent = (usize, InnerRead, Seq<u8>);

/// A fresh input for a stream of `expected` bytes.
pub open spec fn initial_input(expected: u64) -> InputState {
    (expected, 0, Seq::empty(), false, false)
}

/// What a read does before the inner reader: a failed input refuses, an
/// empty buffer or a seen EOF reports zero bytes, and otherwise at most one
/// byte more than still expected is requested.
pub open spec fn plan_spec(s: InputState, buffer_len: usize) -> ReadPlan {
    if s.4 {
        ReadPlan::Reject(AuthenticatedReadError::Invalid(InputRejection::PreviouslyFailed))
    } else if buffer_len == 0 || s.3 {
        ReadPlan::Empty
    } else {
        ReadPlan::Read(if s.0 + 1 - s.1 < buffer_len { (s.0 + 1 - s.1) as usize } else { buffer_len })
    }
}

/// How the inner reader's answer to a planned read changes the input, and
/// what the read returns. An interruption is passed on without failing the
/// input; any other inner failure or an excess of bytes fails it for good.
pub open spec fn complete_spec(s: InputState, inner: InnerRead, filled: Seq<u8>) -> (InputState, Result<usize, AuthenticatedReadError>) {
    match inner {
        InnerRead::Failed { interrupted } => (
            (s.0, s.1, s.2, s.3, s.4 || !interrupted),
            Err(AuthenticatedReadError::Inner { interrupted }),
        ),
        InnerRead::Filled(count) => if count == 0 {
            ((s.0, s.1, s.2, true, s.4), Ok(0))
        } else if s.1 + count > s.0 {
            (
                (s.0, s.1 + count, s.2, s.3, true),
                Err(AuthenticatedReadError::Invalid(InputRejection::ExceedsTrustedCount)),
            )
        } else {
            ((s.0, s.1 + count, s.2 + filled, s.3, s.4), Ok(count))
        },
    }
}

/// One whole read: the plan, then the inner reader's answer where it is asked.
pub open spec fn read_spec(s: InputState, e: ReadEvent) -> (InputState, Result<usize, AuthenticatedReadError>) {
    match plan_spec(s, e.0) {
        ReadPlan::Reject(err) => (s, Err(err)),
        ReadPlan::Empty => (s, Ok(0)),
        ReadPlan::Read(_) => complete_spec(s, e.1, e.2),
    }
}

/// The inner reader fills no more than the bounded buffer it was given.
pub open spec fn read_fits(s: InputState, e: ReadEvent) -> bool {
    plan_spec(s, e.0) matches ReadPlan::Read(limit) ==> (e.1 matches InnerRead::Filled(count) ==> count
        == e.2.len() && count <= limit)
}

/// The input after a sequence of reads.
pub open spec fn run_reads(s: InputState, reads: Seq<ReadEvent>) -> InputState
    decreases reads.len(),
{
    if reads.len() == 0 {
        s
    } else {
        read_spec(run_reads(s, reads.drop_last()), reads.last()).0
    }
}

/// What the last of a nonempty sequence of reads returned.
pub open spec fn last_result(s: InputState, reads: Seq<ReadEvent>) -> Result<usize, AuthenticatedReadError> {
    read_spec(run_reads(s, reads.drop_last()), reads.last()).1
}

/// Every read of the sequence fits its buffer.
pub open spec fn reads_fit(s: InputState, reads: Seq<ReadEvent>) -> bool
    decreases reads.len(),
{
    reads.len() == 0 || (reads_fit(s, reads.drop_last()) && read_fits(run_reads(s, reads.drop_last()), reads.last()))
}

/// Some read hit an inner failure other than an interruption, or exceeded
/// the trusted count.
pub open spec fn read_failed(s: InputState, reads: Seq<ReadEvent>) -> bool
    decreases reads.len(),
{
    reads.len() > 0 && (read_failed(s, reads.drop_last()) || match last_result(s, reads) {
        Err(AuthenticatedReadError::Inner { interrupted }) => !interrupted,
        Err(AuthenticatedReadError::Invalid(InputRejection::ExceedsTrustedCount)) => true,
        _ => false,
    })
}

/// Some read with a nonempty buffer returned zero bytes: real EOF.
pub open spec fn real_eof_seen(s: InputState, reads: Seq<ReadEvent>) -> bool
    decreases reads.len(),
{
    reads.len() > 0 && (real_eof_seen(s, reads.drop_last()) || (reads.last().0 > 0 && last_result(s, reads)
        == Ok::<usize, AuthenticatedReadError>(0)))
}

/// The bytes the reads handed out, concatenated in order.
pub open spec fn bytes_returned(s: InputState, reads: Seq<ReadEvent>) -> Seq<u8>
    decreases reads.len(),
{
    if reads.len() == 0 {
        Seq::empty()
    } else {
        bytes_returned(s, reads.drop_last()) + match last_result(s, reads) {
            Ok(count) => reads.last().2.take(count as int),
            Err(_) => Seq::empty(),
        }
    }
}

/// Whether finishing accepts the input.
pub open spec fn finish_accepts(s: InputState) -> bool {
    !s.4 && s.3 && s.1 == s.0
}

/// What holds of the input after any sequence of reads from a fresh start.
proof fn lemma_reads_invariant(expected: u64, reads: Seq<ReadEvent>)
    requires
        expected < u64::MAX,
        reads_fit(initial_input(expected), reads),
    ensures
        ({
            let t = run_reads(initial_input(expected), reads);
            let init = initial_input(expected);
            &&& t.0 == expected
            &&& 0 <= t.1 <= expected + 1
            &&& t.4 == read_failed(init, reads)
            &&& t.3 == real_eof_seen(init, reads)
            &&& !t.4 ==> t.2 == bytes_returned(init, reads) && t.1 == t.2.len() && t.1 <= expected
        }),
    decreases reads.len(),
{
    let init = initial_input(expected);
    if reads.len() > 0 {
        let prefix = reads.drop_last();
        lemma_reads_invariant(expected, prefix);
        let s = run_reads(init, prefix);
        let e = reads.last();
        if !s.4 && e.0 != 0 && !s.3 {
            if let InnerRead::Filled(count) = e.1 {
                if count != 0 && s.1 + count <= s.0 {
                    assert(e.2.take(count as int) =~= e.2);
                }
            }
        }
    }
}

/// A whole read sequence on a fresh input: finishing succeeds exactly when no
/// read failed, some read saw real EOF and the reads handed out exactly the
/// expected bytes; the digest then covers exactly their concatenation.
pub proof fn law_read_sequence(expected: u64, reads: Seq<ReadEvent>)
    requires
        expected < u64::MAX,
        reads_fit(initial_input(expected), reads),
    ensures
        finish_accepts(run_reads(initial_input(expected), reads)) <==> !read_failed(initial_input(expected), reads)
            && real_eof_seen(initial_input(expected), reads)
            && bytes_returned(initial_input(expected), reads).len() == expected,
        finish_accepts(run_reads(initial_input(expected), reads)) ==> run_reads(initial_input(expected), reads).2
            == bytes_returned(initial_input(expected), reads),
{
    lemma_reads_invariant(expected, reads);
}

/// A read in any reachable state: a failed input refuses every read and
/// finishing; otherwise an empty buffer reports zero bytes and leaves the
/// input as it was, an interruption leaves the input as it was, so later reads
/// proceed,
/// and a read never hands out more than its buffer holds nor, in total,
/// more than the expected bytes.
pub proof fn law_read_step(expected: u64, reads: Seq<ReadEvent>, e: ReadEvent)
    requires
        expected < u64::MAX,
        reads_fit(initial_input(expected), reads),
        read_fits(run_reads(initial_input(expected), reads), e),
    ensures
        ({
            let s = run_reads(initial_input(expected), reads);
            let (t, r) = read_spec(s, e);
            &&& s.4 ==> t == s && r == Err::<usize, _>(
                AuthenticatedReadError::Invalid(InputRejection::PreviouslyFailed),
            ) && !finish_accepts(s)
            &&& !s.4 && e.0 == 0 ==> t == s && r == Ok::<usize, AuthenticatedReadError>(0)
            &&& e.1 == (InnerRead::Failed { interrupted: true }) ==> t == s
            &&& r matches Ok(n) ==> n <= e.0 && !t.4 && t.1 <= expected
                && bytes_returned(initial_input(expected), reads.push(e)).len() <= expected
        }),
{
    let init = initial_input(expected);
    let all = reads.push(e);
    assert(all.drop_last() =~= reads);
    assert(all.last() == e);
    lemma_reads_invariant(expected, all);
    lemma_reads_invariant(expected, reads);
}

/// A decoder input bounded by a trusted byte count. It admits at most one byte
/// more than expected so that an excess stream is observed and rejected, and
/// it hashes exactly the bytes it hands out.
pub struct AuthenticatedInput {
    expected: u64,
    remaining: u64,
    bytes: u64,
    digest: Sha256,
    eof: bool,
    failed: bool,
}

impl AuthenticatedInput {
    pub closed spec fn expected(&self) -> u64 {
        self.expected
    }

    /// Bytes handed out so far.
    pub closed spec fn consumed(&self) -> u64 {
        self.bytes
    }

    /// Bytes authenticated so far, in order.
    pub closed spec fn authenticated(&self) -> Seq<u8> {
        sha256_absorbed(self.digest)
    }

    pub closed spec fn at_eof(&self) -> bool {
        self.eof
    }

    pub closed spec fn has_failed(&self) -> bool {
        self.failed
    }

    /// The observable state of this input.
    pub closed spec fn state(&self) -> InputState {
        (self.expected, self.bytes as int, sha256_absorbed(self.digest), self.eof, self.failed)
    }

    /// At most `expected + 1` bytes are ever requested from the inner reader,
    /// and without a failure every handed-out byte was authenticated.
    pub closed spec fn wf(&self) -> bool {
        &&& self.expected < u64::MAX
        &&& self.bytes <= self.expected + 1
        &&& self.remaining == self.expected + 1 - self.bytes
        &&& !self.failed ==> self.bytes <= self.expected
        &&& !self.failed ==> sha256_absorbed(self.digest).len() == self.bytes
    }

    /// Start authenticating a stream of exactly `expected` bytes.
    pub fn new(expected: u64) -> (result: Result<AuthenticatedInput, AuthenticatedReadError>)
        ensures
            expected == u64::MAX <==> result is Err,
            result matches Err(e) ==> e == AuthenticatedReadError::Invalid(
                InputRejection::SizeOverflow,
            ),
            result matches Ok(input) ==> {
                &&& input.wf()
                &&& input.expected() == expected
                &&& input.consumed() == 0
                &&& input.authenticated() == Seq::<u8>::empty()
                &&& !input.at_eof()
                &&& !input.has_failed()
                &&& input.state() == initial_input(expected)
            },
    {
        let remaining = match expected.checked_add(1) {
            Some(remaining) => remaining,
            None => return Err(invalid(InputRejection::SizeOverflow)),
        };
        Ok(AuthenticatedInput {
            expected,
            remaining,
            bytes: 0,
            digest: sha256_new(),
            eof: false,
            failed: false,
        })
    }

    /// Decide a read of a caller buffer of `buffer_len` bytes. An empty buffer
    /// says nothing about the underlying EOF, so it never reaches the reader.
    pub fn plan_read(&self, buffer_len: usize) -> (plan: ReadPlan)
        requires
            self.wf(),
        ensures
            self.has_failed() ==> plan == ReadPlan::Reject(
                AuthenticatedReadError::Invalid(InputRejection::PreviouslyFailed),
            ),
            !self.has_failed() && (buffer_len == 0 || self.at_eof()) ==> plan == ReadPlan::Empty,
            !self.has_failed() && buffer_len != 0 && !self.at_eof() ==> plan == ReadPlan::Read(
                if (self.expected() + 1 - self.consumed()) < buffer_len {
                    (self.expected() + 1 - self.consumed()) as usize
                } else {
                    buffer_len
                },
            ),
            plan == plan_spec(self.state(), buffer_len),
    {
        if self.failed {
            return ReadPlan::Reject(invalid(InputRejection::PreviouslyFailed));
        }
        if buffer_len == 0 || self.eof {
            return ReadPlan::Empty;
        }
        let limit = if self.remaining < buffer_len as u64 {
            self.remaining as usize
        } else {
            buffer_len
        };
        ReadPlan::Read(limit)
    }

    /// Account for the inner reader's answer to a planned bounded read.
    /// `filled` holds the bytes it placed in the buffer.
    pub fn complete_read(&mut self, inner: InnerRead, filled: &[u8]) -> (result: Result<
        usize,
        AuthenticatedReadError,
    >)
        requires
            old(self).wf(),
            !old(self).has_failed(),
            !old(self).at_eof(),
            inner matches InnerRead::Filled(count) ==> count == filled@.len() && count
                <= old(self).expected() + 1 - old(self).consumed(),
        ensures
            final(self).wf(),
            final(self).expected() == old(self).expected(),
            (final(self).state(), result) == complete_spec(old(self).state(), inner, filled@),
            match inner {
                InnerRead::Failed { interrupted } => {
                    &&& result == Err::<usize, _>(AuthenticatedReadError::Inner { interrupted })
                    &&& final(self).has_failed() == !interrupted
                    &&& final(self).consumed() == old(self).consumed()
                    &&& final(self).authenticated() == old(self).authenticated()
                    &&& !final(self).at_eof()
                },
                InnerRead::Filled(count) => if count == 0 {
                    &&& result == Ok::<usize, AuthenticatedReadError>(0)
                    &&& final(self).at_eof()
                    &&& !final(self).has_failed()
                    &&& final(self).consumed() == old(self).consumed()
                    &&& final(self).authenticated() == old(self).authenticated()
                } else if old(self).consumed() + count > old(self).expected() {
                    &&& result == Err::<usize, _>(
                        AuthenticatedReadError::Invalid(InputRejection::ExceedsTrustedCount),
                    )
                    &&& final(self).has_failed()
                    &&& !final(self).at_eof()
                    &&& final(self).consumed() == old(self).consumed() + count
                } else {
                    &&& result == Ok::<usize, AuthenticatedReadError>(count)
                    &&& !final(self).has_failed()
                    &&& !final(self).at_eof()
                    &&& final(self).consumed() == old(self).consumed() + count
                    &&& final(self).authenticated() == old(self).authenticated() + filled@
                },
            },
    {
        match inner {
            InnerRead::Failed { interrupted } => {
                if !interrupted {
                    self.failed = true;
                }
                Err(AuthenticatedReadError::Inner { interrupted })
            },
            InnerRead::Filled(count) => {
                if count == 0 {
                    self.eof = true;
                } else {
                    self.remaining = self.remaining - count as u64;
                    self.bytes = self.bytes + count as u64;
                    if self.bytes > self.expected {
                        self.failed = true;
                        return Err(invalid(InputRejection::ExceedsTrustedCount));
                    }
                    sha256_update(&mut self.digest, filled);
                }
                Ok(count)
            },
        }
    }

    /// Successful decoding must itself have observed real EOF after exactly
    /// the expected bytes, with no failed read; the unread suffix is never
    /// drained here.
    pub fn finish(self) -> (result: Result<[u8; 32], AuthenticatedReadError>)
        requires
            self.wf(),
        ensures
            result is Ok <==> !self.has_failed() && self.at_eof() && self.consumed()
                == self.expected(),
            result matches Ok(digest) ==> digest@ == sha256_digest(self.authenticated())
                && self.authenticated().len() == self.expected(),
            result matches Err(e) ==> e == AuthenticatedReadError::Invalid(
                InputRejection::CountEofOrFailure,
            ),
            result is Ok <==> finish_accepts(self.state()),
            result matches Ok(digest) ==> digest@ == sha256_digest(self.state().2),
    {
        if self.failed || !self.eof || self.bytes != self.expected {
            return Err(invalid(InputRejection::CountEofOrFailure));
        }
        Ok(sha256_finalize(self.digest))
    }
}

/// A sink that hashes everything written to it and counts the bytes.
pub struct DigestWriter {
    digest: Sha256,
    bytes: u64,
}

impl DigestWriter {
    pub closed spec fn written(&self) -> Seq<u8> {
        sha256_absorbed(self.digest)
    }

    pub closed spec fn count(&self) -> u64 {
        self.bytes
    }

    pub closed spec fn wf(&self) -> bool {
        sha256_absorbed(self.digest).len() == self.bytes
    }

    pub fn new() -> (writer: DigestWriter)
        ensures
            writer.wf(),
            writer.written() == Seq::<u8>::empty(),
            writer.count() == 0,
    {
        DigestWriter { digest: sha256_new(), bytes: 0 }
    }

    /// Bytes written so far.
    pub fn bytes(&self) -> (count: u64)
        ensures
            count == self.count(),
    {
        self.bytes
    }

    /// Write all of `data`; the count cannot exceed `u64::MAX`.
    pub fn write(&mut self, data: &[u8]) -> (written: usize)
        requires
            old(self).wf(),
            old(self).count() + data@.len() <= u64::MAX,
        ensures
            final(self).wf(),
            written == data@.len(),
            final(self).written() == old(self).written() + data@,
            final(self).count() == old(self).count() + data@.len(),
    {
        sha256_update(&mut self.digest, data);
        self.bytes = self.bytes + data.len() as u64;
        data.len()
    }

    /// The digest of everything written.
    pub fn finalize(self) -> (digest: [u8; 32])
        requires
            self.wf(),
        ensures
            digest@ == sha256_digest(self.written()),
    {
        sha256_finalize(self.digest)
    }
}

/// An archive entry must declare exactly the byte count the receipt records.
pub fn check_entry_size(declared_bytes: u64, expected_bytes: u64) -> (result: Result<(), SystemsPublicationCacheError>)
    ensures
        result is Ok <==> declared_bytes == expected_bytes,
        result matches Err(e) ==> e == SystemsPublicationCacheError::Mismatch("archive entry byte count"),
{
    if declared_bytes != expected_bytes {
        return Err(SystemsPublicationCacheError::Mismatch("archive entry byte count"));
    }
    Ok(())
}

/// How many bytes a bounded digest reads at most: one more than expected, so
/// that excess input is observed without reading further.
pub fn bounded_digest_limit(expected_bytes: u64) -> (limit: Result<u64, SystemsPublicationCacheError>)
    ensures
        limit == (if expected_bytes == u64::MAX {
            Err::<u64, SystemsPublicationCacheError>(SystemsPublicationCacheError::Mismatch("archive entry size overflow"))
        } else {
            Ok((expected_bytes + 1) as u64)
        }),
{
    match expected_bytes.checked_add(1) {
        Some(limit) => Ok(limit),
        None => Err(SystemsPublicationCacheError::Mismatch("archive entry size overflow")),
    }
}

/// Accept the digest of a bounded copy only when exactly the expected bytes
/// were written.
pub fn bounded_digest_result(writer: DigestWriter, expected_bytes: u64) -> (result: Result<
    [u8; 32],
    SystemsPublicationCacheError,
>)
    requires
        writer.wf(),
    ensures
        result is Ok <==> writer.count() == expected_bytes,
        result matches Ok(digest) ==> digest@ == sha256_digest(writer.written())
            && writer.written().len() == expected_bytes,
        result matches Err(e) ==> e == SystemsPublicationCacheError::Mismatch("actual archive entry byte count"),
{
    if writer.bytes() != expected_bytes {
        return Err(SystemsPublicationCacheError::Mismatch("actual archive entry byte count"));
    }
    Ok(writer.finalize())
}

} // verus!
