//! SHA-256 and lowercase hexadecimal, as the crates `ring` and
//! `data_encoding` compute them.
//!
//! The functions that call those crates are believed, not proved: the
//! contract of each says what the crate's source shows of the call.

use vstd::prelude::*;

verus! {

/// The streaming hash state of `ring`, opaque to the verifier.
#[verifier::external_type_specification]
#[verifier::external_body]
pub struct ExContext(ring::digest::Context);

/// The SHA-256 digest of a byte string.
pub uninterp spec fn sha256(data: Seq<u8>) -> Seq<u8>;

/// The bytes that a context has been fed since it was made, in order.
pub uninterp spec fn absorbed(context: ring::digest::Context) -> Seq<u8>;

/// Whether a context was made for SHA-256.
pub uninterp spec fn for_sha256(context: ring::digest::Context) -> bool;

/// The most bytes that one digest can cover: their count in bits has to fit
/// in 64 bits.
pub const MAX_DIGEST_INPUT: u64 = 0x1fff_ffff_ffff_ffff;

/// The length of a SHA-256 digest in bytes.
pub const DIGEST_LEN: usize = 32;

/// `ring::digest::Context::new` with `ring::digest::SHA256`: a context for
/// SHA-256 that has been fed nothing yet.
#[verifier::external_body]
pub(crate) fn new_context() -> (context: ring::digest::Context)
    ensures
        for_sha256(context),
        absorbed(context) == Seq::<u8>::empty(),
{
    ring::digest::Context::new(&ring::digest::SHA256)
}

/// `ring::digest::Context::update`: the context has been fed `data` after
/// what it had been fed before. It never fails, whatever the length.
#[verifier::external_body]
pub(crate) fn update(context: &mut ring::digest::Context, data: &[u8])
    ensures
        for_sha256(*final(context)) == for_sha256(*old(context)),
        absorbed(*final(context)) == absorbed(*old(context)) + data@,
{
    context.update(data)
}

/// `Clone::clone` of `ring::digest::Context`, which is derived: the copy has
/// been fed the same bytes, for the same algorithm.
#[verifier::external_body]
pub(crate) fn clone_context(context: &ring::digest::Context) -> (copy: ring::digest::Context)
    ensures
        for_sha256(copy) == for_sha256(*context),
        absorbed(copy) == absorbed(*context),
{
    context.clone()
}

/// `ring::digest::Context::finish`, then the digest's bytes: the SHA-256
/// digest of everything the context was fed, 32 bytes long. `finish` panics
/// when the input is longer than `MAX_DIGEST_INPUT` bytes, so that is left out.
#[verifier::external_body]
pub(crate) fn finish(context: ring::digest::Context) -> (digest: Vec<u8>)
    requires
        for_sha256(context),
        absorbed(context).len() <= MAX_DIGEST_INPUT,
    ensures
        digest@ == sha256(absorbed(context)),
        digest@.len() == DIGEST_LEN,
{
    context.finish().as_ref().to_vec()
}

/// The sixteen digits of lowercase hexadecimal, in order.
pub open spec fn hex_digits() -> Seq<char> {
    seq!['0', '1', '2', '3', '4', '5', '6', '7', '8', '9', 'a', 'b', 'c', 'd', 'e', 'f']
}

/// Lowercase hexadecimal: two digits for each byte, the high half first.
pub open spec fn hex_lower(bytes: Seq<u8>) -> Seq<char> {
    Seq::new(
        2 * bytes.len(),
        |i: int|
            if i % 2 == 0 {
                hex_digits()[bytes[i / 2] as int / 16]
            } else {
                hex_digits()[bytes[i / 2] as int % 16]
            },
    )
}

/// `data_encoding::HEXLOWER.encode`: the lowercase hexadecimal of the bytes.
/// The outside function stops with a panic on an input longer than
/// `usize::MAX / 512`, so that is left out.
#[verifier::external_body]
pub(crate) fn hex_encode(bytes: &[u8]) -> (hex: String)
    requires
        bytes@.len() <= usize::MAX / 512,
    ensures
        hex@ == hex_lower(bytes@),
{
    data_encoding::HEXLOWER.encode(bytes)
}

/// Distinct byte strings have distinct hexadecimal forms.
pub proof fn lemma_hex_lower_injective(a: Seq<u8>, b: Seq<u8>)
    requires
        hex_lower(a) == hex_lower(b),
    ensures
        a == b,
{
    assert(hex_lower(a).len() == 2 * a.len());
    assert(hex_lower(b).len() == 2 * b.len());
    assert forall|i: int| 0 <= i < a.len() implies a[i] == b[i] by {
        let high_a = a[i] as int / 16;
        let low_a = a[i] as int % 16;
        let high_b = b[i] as int / 16;
        let low_b = b[i] as int % 16;
        assert(hex_lower(a)[2 * i] == hex_digits()[high_a]);
        assert(hex_lower(b)[2 * i] == hex_digits()[high_b]);
        assert(hex_lower(a)[2 * i + 1] == hex_digits()[low_a]);
        assert(hex_lower(b)[2 * i + 1] == hex_digits()[low_b]);
        assert(high_a == high_b);
        assert(low_a == low_b);
    }
    assert(a =~= b);
}

} // verus!
