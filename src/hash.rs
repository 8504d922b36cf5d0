//! 64-bit content digests: the first eight bytes of SHA-256, read little-endian.
use crate::value::{encode_value, value_bytes, value_wf, Value};
use crate::model::{
    build_bytes, deploy_bytes, encode_build, encode_deploy, encode_function, encode_import,
    function_bytes, import_bytes, BuildDoc, DeployDoc, FunctionDoc, Import,
};
use vstd::prelude::*;

verus! {

/// Inputs at least this long are not hashed (SHA-256 counts its input length in a
/// 64-bit number of bits).
pub const MAX_DIGEST_INPUT: u64 = 0x1000_0000_0000_0000;

/// The SHA-256 digest of a byte string.
pub uninterp spec fn sha256_of(data: Seq<u8>) -> Seq<u8>;

/// Relies on ring::digest::digest with SHA256: the 32-byte digest of the input,
/// which depends on the input alone. It panics only on inputs too long to count.
#[verifier::external_body]
fn sha256(data: &[u8]) -> (r: Vec<u8>)
    requires
        data@.len() < MAX_DIGEST_INPUT,
    ensures
        r@ == sha256_of(data@),
        r@.len() == 32,
{
    ring::digest::digest(&ring::digest::SHA256, data).as_ref().to_vec()
}

/// The number whose little-endian bytes are `b`.
pub open spec fn le_value(b: Seq<u8>) -> int
    decreases b.len(),
{
    if b.len() == 0 {
        0
    } else {
        b[0] as int + 256 * le_value(b.drop_first())
    }
}

/// The digest of a SHA-256 result: its first eight bytes, little-endian.
pub open spec fn truncate_spec(sha: Seq<u8>) -> u64 {
    le_value(sha.take(8)) as u64
}

/// The 64-bit digest of a byte string, or `None` for inputs too long to hash.
pub open spec fn digest_spec(data: Seq<u8>) -> Option<u64> {
    if data.len() < MAX_DIGEST_INPUT {
        Some(truncate_spec(sha256_of(data)))
    } else {
        None
    }
}

proof fn lemma_le_value_bound(b: Seq<u8>)
    ensures
        0 <= le_value(b) < pow256(b.len()),
    decreases b.len(),
{
    if b.len() > 0 {
        lemma_le_value_bound(b.drop_first());
    }
}

pub open spec fn pow256(n: nat) -> int
    decreases n,
{
    if n == 0 {
        1
    } else {
        256 * pow256((n - 1) as nat)
    }
}

/// Reads the first eight bytes of a SHA-256 result as a little-endian number.
pub fn truncate_digest(sha: &[u8]) -> (r: u64)
    requires
        sha@.len() >= 8,
    ensures
        r == truncate_spec(sha@),
        r as int == le_value(sha@.take(8)),
{
    let mut acc: u64 = 0;
    let mut k: usize = 8;
    proof {
        assert(sha@.take(8).skip(8) =~= Seq::<u8>::empty());
    }
    while k > 0
        invariant
            0 <= k <= 8,
            sha@.len() >= 8,
            acc as int == le_value(sha@.take(8).skip(k as int)),
        decreases k,
    {
        let ghost tail = sha@.take(8).skip(k as int);
        proof {
            lemma_le_value_bound(tail);
            assert(pow256(tail.len()) <= pow256(7)) by {
                lemma_pow256_mono(tail.len(), 7);
            }
            reveal_with_fuel(pow256, 9);
            assert(pow256(7) == 0x100_0000_0000_0000);
        }
        k = k - 1;
        proof {
            assert(sha@.take(8).skip(k as int).drop_first() =~= tail);
        }
        acc = acc * 256 + sha[k] as u64;
    }
    assert(sha@.take(8).skip(0) =~= sha@.take(8));
    proof {
        lemma_le_value_bound(sha@.take(8));
        reveal_with_fuel(pow256, 9);
        assert(pow256(8) == 0x1_0000_0000_0000_0000);
    }
    acc
}

proof fn lemma_pow256_mono(a: nat, b: nat)
    requires
        a <= b,
    ensures
        pow256(a) <= pow256(b),
    decreases b,
{
    if a < b {
        lemma_pow256_mono(a, (b - 1) as nat);
        lemma_pow256_pos((b - 1) as nat);
    }
}

proof fn lemma_pow256_pos(n: nat)
    ensures
        pow256(n) >= 1,
    decreases n,
{
    if n > 0 {
        lemma_pow256_pos((n - 1) as nat);
    }
}

/// The 64-bit digest of a byte string.
pub fn sha256_trunc(data: &[u8]) -> (r: u64)
    requires
        data@.len() < MAX_DIGEST_INPUT,
    ensures
        r == truncate_spec(sha256_of(data@)),
{
    let sha = sha256(data);
    truncate_digest(sha.as_slice())
}

/// The digest of a byte string, or `None` where it is too long to hash.
pub fn digest(data: &[u8]) -> (r: Option<u64>)
    ensures
        r == digest_spec(data@),
{
    if (data.len() as u64) < MAX_DIGEST_INPUT {
        Some(sha256_trunc(data))
    } else {
        None
    }
}

/// The digest of a canonical value's encoding.
pub fn value_digest(v: &Value) -> (r: Option<u64>)
    requires
        value_wf(*v),
    ensures
        r == digest_spec(value_bytes(*v)),
{
    let mut out: Vec<u8> = Vec::new();
    encode_value(v, &mut out);
    assert(out@ =~= value_bytes(*v));
    digest(out.as_slice())
}

pub fn import_digest(i: &Import) -> (r: Option<u64>)
    ensures
        r == digest_spec(import_bytes(*i)),
{
    digest(encode_import(i).as_slice())
}

pub fn function_digest(f: &FunctionDoc) -> (r: Option<u64>)
    ensures
        r == digest_spec(function_bytes(*f)),
{
    digest(encode_function(f).as_slice())
}

pub fn build_digest(b: &BuildDoc) -> (r: Option<u64>)
    ensures
        r == digest_spec(build_bytes(*b)),
{
    digest(encode_build(b).as_slice())
}

pub fn deploy_digest(d: &DeployDoc) -> (r: Option<u64>)
    ensures
        r == digest_spec(deploy_bytes(*d)),
{
    digest(encode_deploy(d).as_slice())
}

} // verus!
