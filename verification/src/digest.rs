//! Content checksums: SHA-256 over a file's bytes, written as lower-case hexadecimal.
//!
//! The digest itself is computed by the `sha2` crate and the hexadecimal text by
//! `base16ct`. A [`FileHasher`] takes the content in chunks, so that a file never
//! has to be held in memory as a whole.

use vstd::prelude::*;

verus! {

/// The hexadecimal digit, in lower case, of a value below sixteen.
pub open spec fn hex_digit(nibble: u8) -> char {
    if nibble < 10 {
        (('0' as u8) + nibble) as char
    } else {
        (('a' as u8) + (nibble - 10)) as char
    }
}

/// The lower-case hexadecimal text of a byte string: two digits per byte, high nibble first.
pub open spec fn hex_lower(bytes: Seq<u8>) -> Seq<char> {
    Seq::new(
        2 * bytes.len(),
        |i: int|
            if i % 2 == 0 {
                hex_digit(bytes[i / 2] / 16)
            } else {
                hex_digit(bytes[i / 2] % 16)
            },
    )
}

/// The SHA-256 digest of a byte string, as the `sha2` crate computes it.
pub uninterp spec fn sha256(content: Seq<u8>) -> Seq<u8>;

/// The bytes that a hasher has taken in so far, in the order in which they came.
pub uninterp spec fn absorbed(hasher: FileHasher) -> Seq<u8>;

/// The checksum that a manifest records for a file with the given content.
pub open spec fn checksum_of(content: Seq<u8>) -> Seq<char> {
    hex_lower(sha256(content))
}

/// A running SHA-256 computation over the chunks of one file.
///
/// The state is `sha2::Sha256`, which is opaque here; what is known of it is the
/// byte string it has absorbed.
#[verifier::external_body]
pub struct FileHasher {
    state: sha2::Sha256,
}

impl View for FileHasher {
    type V = Seq<u8>;

    open spec fn view(&self) -> Seq<u8> {
        absorbed(*self)
    }
}

/// Calls `sha2::Sha256::new` (`Digest::new`): a hasher that has absorbed nothing.
#[verifier::external_body]
fn sha256_start() -> (hasher: FileHasher)
    ensures
        absorbed(hasher) == Seq::<u8>::empty(),
{
    FileHasher { state: <sha2::Sha256 as sha2::Digest>::new() }
}

/// Calls `Digest::update` on the state: the chunk is appended to what was absorbed.
#[verifier::external_body]
fn sha256_absorb(hasher: &mut FileHasher, chunk: &[u8])
    ensures
        absorbed(*final(hasher)) == absorbed(*old(hasher)) + chunk@,
{
    sha2::Digest::update(&mut hasher.state, chunk)
}

/// Calls `Digest::finalize` on the state: the SHA-256 digest of everything absorbed,
/// which is 32 bytes long.
#[verifier::external_body]
fn sha256_finish(hasher: FileHasher) -> (digest: Vec<u8>)
    ensures
        digest@ == sha256(absorbed(hasher)),
        digest@.len() == 32,
{
    sha2::Digest::finalize(hasher.state).to_vec()
}

/// Calls `base16ct::lower::encode_string`: the lower-case hexadecimal text of `bytes`.
/// The outside function panics on an input longer than half of `usize::MAX`.
#[verifier::external_body]
fn encode_hex(bytes: &[u8]) -> (text: String)
    requires
        bytes@.len() <= usize::MAX / 2,
    ensures
        text@ == hex_lower(bytes@),
{
    base16ct::lower::encode_string(bytes)
}

impl FileHasher {
    /// Starts the checksum of a file: nothing has been read yet.
    pub fn new() -> (hasher: Self)
        ensures
            hasher@ == Seq::<u8>::empty(),
    {
        sha256_start()
    }

    /// Takes in the next chunk of the file.
    pub fn update(&mut self, chunk: &[u8])
        ensures
            final(self)@ == old(self)@ + chunk@,
    {
        sha256_absorb(self, chunk)
    }

    /// Ends the computation and gives the checksum of all that was taken in.
    pub fn finish(self) -> (checksum: String)
        ensures
            checksum@ == checksum_of(self@),
            checksum@.len() == 64,
    {
        let digest = sha256_finish(self);
        encode_hex(digest.as_slice())
    }
}

} // verus!
