use vstd::prelude::*;
use chacha20poly1305::aead::{Aead, KeyInit};
use std::io::Write;
use std::sync::atomic::{AtomicU64, Ordering};
use crate::error::{Result, ScribeError};
use crate::pipeline::stage::{Fallback, LogBatch, PipelineStage};
use crate::storage::codec::le_u64;

verus! {

#[verifier::external_type_specification]
#[verifier::external_body]
pub struct ExAeadError(chacha20poly1305::aead::Error);

/// The ciphertext and tag that ChaCha20-Poly1305 seals `plaintext` into
/// under `key` and `nonce`, with no associated data.
pub uninterp spec fn chacha20poly1305_sealed(key: Seq<u8>, nonce: Seq<u8>, plaintext: Seq<u8>) -> Seq<u8>;

/// The longest input, in 64-byte blocks, that ChaCha20-Poly1305 refuses to
/// encrypt: one keystream holds fewer blocks than this.
pub open spec fn chacha_block_limit() -> int {
    0xffff_ffff
}

/// `Aead::encrypt` of `ChaCha20Poly1305` keyed with `key`: it fails exactly
/// when the plaintext has `u32::MAX` or more whole 64-byte blocks; otherwise
/// it gives the sealed bytes, the ciphertext followed by the 16-byte tag.
#[verifier::external_body]
fn chacha20poly1305_encrypt(key: &[u8; 32], nonce: &[u8; 12], plaintext: &[u8]) -> (r: std::result::Result<Vec<u8>, chacha20poly1305::aead::Error>)
    ensures
        r is Ok <==> plaintext@.len() / 64 < chacha_block_limit(),
        r matches Ok(v) ==> v@ == chacha20poly1305_sealed(key@, nonce@, plaintext@) && v@.len() == plaintext@.len() + 16,
{
    chacha20poly1305::ChaCha20Poly1305::new(key.into()).encrypt(chacha20poly1305::Nonce::from_slice(nonce), plaintext)
}

/// The text of an AEAD error: its `Display` output.
#[verifier::external_body]
fn aead_error_text(e: &chacha20poly1305::aead::Error) -> String {
    format!("{}", e)
}

/// Writes one line to standard error; a failed write is ignored.
#[verifier::external_body]
fn warn_line(line: &str) {
    let _ = writeln!(std::io::stderr(), "{}", line);
}

/// The nonce built from counter value `c`: its 8 little-endian bytes, then 4 zero bytes.
pub open spec fn nonce_of(c: u64) -> Seq<u8> {
    le_u64(c) + seq![0u8, 0u8, 0u8, 0u8]
}

/// Takes the next value of the nonce counter.
fn take_counter(counter: &AtomicU64) -> u64 {
    counter.fetch_add(1, Ordering::SeqCst)
}

/// The batch that an encryption under `nonce` yields: the nonce, then the sealed bytes.
pub fn sealed_batch(nonce: &[u8; 12], sealed: &[u8]) -> (r: LogBatch)
    ensures
        r@ == nonce@ + sealed@,
{
    let mut out: Vec<u8> = Vec::new();
    out.extend_from_slice(nonce);
    out.extend_from_slice(sealed);
    assert(out@ =~= nonce@ + sealed@);
    LogBatch::new(out)
}

/// Encrypts log data with ChaCha20-Poly1305 under a fixed key and a
/// counter nonce; the nonce is put in front of the sealed bytes.
pub struct EncryptStage {
    key: [u8; 32],
    nonce_counter: AtomicU64,
}

impl EncryptStage {
    pub closed spec fn spec_key(&self) -> Seq<u8> {
        self.key@
    }

    pub fn new(key: &[u8; 32]) -> (r: EncryptStage)
        ensures
            r.spec_key() == key@,
    {
        EncryptStage { key: *key, nonce_counter: AtomicU64::new(0) }
    }

    /// A fresh nonce: the counter's current value, which is then advanced.
    pub fn next_nonce(&self) -> (r: [u8; 12])
        ensures
            exists|c: u64| r@ == nonce_of(c),
    {
        let c = take_counter(&self.nonce_counter);
        let n = [
            (c & 0xff) as u8,
            ((c >> 8) & 0xff) as u8,
            ((c >> 16) & 0xff) as u8,
            ((c >> 24) & 0xff) as u8,
            ((c >> 32) & 0xff) as u8,
            ((c >> 40) & 0xff) as u8,
            ((c >> 48) & 0xff) as u8,
            ((c >> 56) & 0xff) as u8,
            0u8,
            0u8,
            0u8,
            0u8,
        ];
        assert(n@ =~= nonce_of(c));
        n
    }
}

impl PipelineStage for EncryptStage {
    /// The output is a counter nonce followed by the input sealed under the
    /// stage's key and that nonce; encryption fails, with an encryption
    /// error, only on an input of `u32::MAX` or more 64-byte blocks.
    open spec fn spec_process(&self, input: Seq<u8>, outcome: std::result::Result<Seq<u8>, ScribeError>) -> bool {
        match outcome {
            Ok(out) => exists|c: u64|
                out == #[trigger] nonce_of(c) + chacha20poly1305_sealed(self.spec_key(), nonce_of(c), input),
            Err(e) => e is Encryption && input.len() / 64 >= chacha_block_limit(),
        }
    }

    open spec fn spec_name(&self) -> Seq<char> {
        "encrypt"@
    }

    /// The only fallback the stage chooses is `Skip`.
    open spec fn spec_fallback(&self, input: Seq<u8>, error: ScribeError, fallback: Fallback) -> bool {
        fallback == Fallback::Skip
    }

    fn name(&self) -> (r: &str)
        ensures
            r@ == "encrypt"@,
    {
        "encrypt"
    }

    fn process(&self, data: LogBatch) -> (r: Result<LogBatch>) {
        let nonce = self.next_nonce();
        match chacha20poly1305_encrypt(&self.key, &nonce, data.data.as_slice()) {
            Ok(sealed) => Ok(sealed_batch(&nonce, sealed.as_slice())),
            Err(e) => Err(ScribeError::Encryption(aead_error_text(&e))),
        }
    }

    /// A failed encryption is skipped, with a warning on standard error:
    /// the data goes on unencrypted.
    fn on_error(&self, data: LogBatch, error: ScribeError) -> (r: Fallback)
        ensures
            r == Fallback::Skip,
    {
        warn_line("WARNING: Encryption failed, using unencrypted data");
        Fallback::Skip
    }
}

} // verus!
