//! Content addresses: the SHA-1 digest of an object's type, length and body.

use sha1::Digest;
use vstd::prelude::*;
use vstd::string::StringSliceAdditionalSpecFns;

verus! {

/// The SHA-1 digest of a sequence of bytes: 20 bytes.
pub uninterp spec fn sha1(data: Seq<u8>) -> Seq<u8>;

/// The decimal digits of `n` in ASCII, without leading zeros.
pub open spec fn decimal(n: nat) -> Seq<u8>
    decreases n,
{
    if n < 10 {
        seq![(0x30 + n) as u8]
    } else {
        decimal(n / 10).push((0x30 + n % 10) as u8)
    }
}

/// A signed number in decimal, with a minus sign if it is negative.
pub open spec fn signed_decimal(x: int) -> Seq<u8> {
    if x < 0 {
        seq![0x2du8] + decimal((-x) as nat)
    } else {
        decimal(x as nat)
    }
}

/// What stands before the body where an object is hashed: the type, a
/// space, the length of the body in decimal, and a zero byte.
pub open spec fn object_header(tag: Seq<u8>, len: nat) -> Seq<u8> {
    tag + seq![0x20u8] + decimal(len) + seq![0u8]
}

/// The content address of an object of type `tag` with the given body.
pub open spec fn object_id(tag: Seq<u8>, body: Seq<u8>) -> Seq<u8> {
    sha1(object_header(tag, body.len()) + body)
}

/// The type of commit objects, `commit`.
pub open spec fn commit_tag() -> Seq<u8> {
    seq![0x63u8, 0x6fu8, 0x6du8, 0x6du8, 0x69u8, 0x74u8]
}

/// A content address.
#[derive(Debug, Clone, Copy, PartialEq, Eq, PartialOrd, Ord, Hash)]
pub struct Oid {
    pub bytes: [u8; 20],
}

impl View for Oid {
    type V = Seq<u8>;

    open spec fn view(&self) -> Seq<u8> {
        self.bytes@
    }
}

/// `Sha1::new`, `chain_update` and `finalize` of the crate `sha1`: the
/// digest of `head` followed by `body`, as if the two were one input.
#[verifier::external_body]
fn sha1_of_parts(head: &[u8], body: &[u8]) -> (r: [u8; 20])
    ensures
        r@ == sha1(head@ + body@),
{
    sha1::Sha1::new().chain_update(head).chain_update(body).finalize().into()
}

/// The decimal digits of `n`.
pub fn decimal_digits(n: u64) -> (r: Vec<u8>)
    ensures
        r@ == decimal(n as nat),
{
    let mut out: Vec<u8> = Vec::new();
    out.push(0x30 + (n % 10) as u8);
    let mut rest: u64 = n / 10;
    while rest > 0
        invariant
            rest > 0 ==> decimal(n as nat) == decimal(rest as nat) + out@,
            rest == 0 ==> decimal(n as nat) == out@,
        decreases rest,
    {
        let digit: u8 = 0x30 + (rest % 10) as u8;
        let ghost before = out@;
        out.insert(0, digit);
        proof {
            assert(out@ =~= seq![digit] + before);
            if rest >= 10 {
                assert(decimal(rest as nat) + before =~= decimal((rest / 10) as nat) + out@);
            } else {
                assert(decimal(rest as nat) + before =~= out@);
            }
        }
        rest = rest / 10;
    }
    out
}

/// A signed number in decimal.
pub fn signed_decimal_digits(x: i64) -> (r: Vec<u8>)
    ensures
        r@ == signed_decimal(x as int),
{
    if x < 0 {
        let magnitude: u64 = (-(x as i128)) as u64;
        let digits = decimal_digits(magnitude);
        let mut out: Vec<u8> = Vec::new();
        out.push(0x2d);
        out.extend_from_slice(digits.as_slice());
        out
    } else {
        decimal_digits(x as u64)
    }
}

/// The content address of an object of type `tag` with the given body.
pub fn hash_object(tag: &[u8], body: &[u8]) -> (r: Oid)
    ensures
        r@ == object_id(tag@, body@),
{
    let mut head: Vec<u8> = Vec::new();
    head.extend_from_slice(tag);
    head.push(0x20);
    let digits = decimal_digits(body.len() as u64);
    head.extend_from_slice(digits.as_slice());
    head.push(0);
    proof {
        assert(head@ =~= object_header(tag@, body@.len()));
    }
    Oid { bytes: sha1_of_parts(head.as_slice(), body) }
}

/// The address of a commit with the given body.
pub fn hash_commit(body: &[u8]) -> (r: Oid)
    ensures
        r@ == object_id(commit_tag(), body@),
{
    let tag: [u8; 6] = [0x63, 0x6f, 0x6d, 0x6d, 0x69, 0x74];
    proof {
        assert(tag@ =~= commit_tag());
    }
    hash_object(tag.as_slice(), body)
}

impl Oid {
    /// The address with the given bytes.
    pub fn from_array(bytes: [u8; 20]) -> (r: Oid)
        ensures
            r.bytes == bytes,
    {
        Oid { bytes }
    }

    /// The content address of an object of the type named by `object_type`.
    pub fn for_object(object_type: &str, body: &[u8]) -> (r: Oid)
        ensures
            r@ == object_id(object_type.spec_bytes(), body@),
    {
        hash_object(object_type.as_bytes(), body)
    }

    /// Whether two addresses hold the same bytes.
    pub fn same(&self, other: &Oid) -> (r: bool)
        ensures
            r == (self@ == other@),
    {
        let mut i: usize = 0;
        while i < 20
            invariant
                i <= 20,
                forall|k: int| 0 <= k < i ==> self.bytes@[k] == other.bytes@[k],
            decreases 20 - i,
        {
            if self.bytes[i] != other.bytes[i] {
                return false;
            }
            i += 1;
        }
        assert(self@ =~= other@);
        true
    }
}

/// Two addresses computed for the same type and body are the same.
pub proof fn lemma_digest_deterministic(first: Oid, second: Oid, tag: Seq<u8>, body: Seq<u8>)
    requires
        first@ == object_id(tag, body),
        second@ == object_id(tag, body),
    ensures
        first@ == second@,
        first == second,
{
    assert(first.bytes@ =~= second.bytes@);
    assert(first.bytes == second.bytes);
}

} // verus!
