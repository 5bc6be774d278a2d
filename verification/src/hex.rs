//! Patterns of hexadecimal nibbles with don't-care positions, as a sequence
//! of bytes and a mask of the same length.

use vstd::prelude::*;
use vstd::string::StringSliceAdditionalSpecFns;

verus! {

/// A byte pattern and, for each of its bytes, the bits that count.
#[derive(Debug, Clone)]
pub struct MaskedBytes {
    pub bytes: Vec<u8>,
    pub mask: Vec<u8>,
}

/// A byte of the input that is neither a nibble nor a separator.
#[derive(Debug, Clone, Copy, PartialEq, Eq, Structural)]
pub struct InvalidByte {
    /// The offending byte.
    pub byte: u8,
    /// Its offset in the input.
    pub offset: usize,
}

/// Bytes that may stand anywhere between nibbles and are skipped.
pub open spec fn is_separator(b: u8) -> bool {
    b == 0x20 || b == 0x0a || b == 0x09 || b == 0x2c || b == 0x3b || b == 0x22 || b == 0x27
}

/// The hexadecimal digits and the underscore, which stands for a nibble that
/// does not matter.
pub open spec fn is_nibble(b: u8) -> bool {
    (0x30 <= b <= 0x39) || (0x61 <= b <= 0x66) || (0x41 <= b <= 0x46) || b == 0x5f
}

/// The value of a nibble; 0 for the underscore.
pub open spec fn nibble_value(b: u8) -> int {
    if 0x30 <= b <= 0x39 {
        b - 0x30
    } else if 0x61 <= b <= 0x66 {
        b - 0x61 + 10
    } else if 0x41 <= b <= 0x46 {
        b - 0x41 + 10
    } else {
        0
    }
}

/// The mask of a nibble: all four bits for a digit, none for the underscore.
pub open spec fn nibble_mask(b: u8) -> int {
    if b == 0x5f {
        0
    } else {
        15
    }
}

/// Where the nibbles start: behind a leading `0x` or `0X`, if there is one.
pub open spec fn body_start(s: Seq<u8>) -> int {
    if s.len() >= 2 && s[0] == 0x30 && (s[1] == 0x78 || s[1] == 0x58) {
        2
    } else {
        0
    }
}

/// Whether every byte behind the optional prefix is a nibble or a separator.
pub open spec fn is_pattern(s: Seq<u8>) -> bool {
    forall|i: int| body_start(s) <= i < s.len() ==> is_nibble(#[trigger] s[i]) || is_separator(s[i])
}

/// The nibbles of `s`, in order, with the separators left out.
pub open spec fn nibbles(s: Seq<u8>) -> Seq<u8>
    decreases s.len(),
{
    if s.len() == 0 {
        Seq::empty()
    } else if is_separator(s.last()) {
        nibbles(s.drop_last())
    } else {
        nibbles(s.drop_last()).push(s.last())
    }
}

/// Nibbles packed in pairs, the first of a pair in the high half of the
/// byte. An odd nibble at the end gets zero as its partner.
pub open spec fn packed(n: Seq<int>) -> Seq<u8> {
    Seq::new(
        ((n.len() + 1) / 2) as nat,
        |k: int|
            (16 * n[2 * k] + if 2 * k + 1 < n.len() {
                n[2 * k + 1]
            } else {
                0
            }) as u8,
    )
}

/// The bytes that a pattern stands for.
pub open spec fn pattern_bytes(s: Seq<u8>) -> Seq<u8> {
    packed(nibbles(s.skip(body_start(s))).map_values(|b: u8| nibble_value(b)))
}

/// The mask that a pattern stands for.
pub open spec fn pattern_mask(s: Seq<u8>) -> Seq<u8> {
    packed(nibbles(s.skip(body_start(s))).map_values(|b: u8| nibble_mask(b)))
}

/// A mask that lets every bit of `n` bytes count.
pub open spec fn full_mask(n: nat) -> Seq<u8> {
    Seq::new(n, |i: int| 0xffu8)
}

proof fn lemma_pack_nibbles(high: u8, low: u8)
    by (bit_vector)
    requires
        high < 16,
        low < 16,
    ensures
        (high << 4) == 16 * high,
        ((high << 4) | low) == 16 * high + low,
{
}

impl MaskedBytes {
    /// The pattern has one mask byte for each byte.
    pub open spec fn wf(&self) -> bool {
        self.bytes@.len() == self.mask@.len()
    }

    pub fn new(bytes: Vec<u8>, mask: Vec<u8>) -> (r: Self)
        requires
            bytes@.len() == mask@.len(),
        ensures
            r.bytes == bytes,
            r.mask == mask,
            r.wf(),
    {
        Self { bytes, mask }
    }

    /// A pattern in which every bit of `bytes` counts.
    pub fn exact(bytes: Vec<u8>) -> (r: Self)
        ensures
            r.bytes == bytes,
            r.mask@ == full_mask(bytes@.len()),
            r.wf(),
    {
        let mut mask: Vec<u8> = Vec::with_capacity(bytes.len());
        let mut i: usize = 0;
        while i < bytes.len()
            invariant
                i <= bytes.len(),
                mask@ == full_mask(i as nat),
            decreases bytes.len() - i,
        {
            mask.push(0xff);
            i += 1;
            assert(mask@ =~= full_mask(i as nat));
        }
        Self { bytes, mask }
    }

    /// Each byte of the pattern with its mask, in order.
    pub fn pairs(&self) -> (r: Vec<(u8, u8)>)
        requires
            self.wf(),
        ensures
            r@.len() == self.bytes@.len(),
            forall|i: int|
                0 <= i < r@.len() ==> #[trigger] r@[i] == (self.bytes@[i], self.mask@[i]),
    {
        let mut out: Vec<(u8, u8)> = Vec::new();
        let mut i: usize = 0;
        while i < self.bytes.len()
            invariant
                self.wf(),
                i <= self.bytes@.len(),
                out@.len() == i,
                forall|j: int| 0 <= j < i ==> #[trigger] out@[j] == (self.bytes@[j], self.mask@[j]),
            decreases self.bytes@.len() - i,
        {
            out.push((self.bytes[i], self.mask[i]));
            i += 1;
        }
        out
    }

    /// The pattern without any byte, which everything matches.
    pub fn empty() -> (r: Self)
        ensures
            r.bytes@.len() == 0,
            r.mask@.len() == 0,
            r.wf(),
    {
        Self { bytes: Vec::new(), mask: Vec::new() }
    }
}

impl From<Vec<u8>> for MaskedBytes {
    /// A pattern in which every bit of `bytes` counts.
    fn from(bytes: Vec<u8>) -> (r: Self)
        ensures
            r.bytes == bytes,
            r.mask@ == full_mask(bytes@.len()),
    {
        MaskedBytes::exact(bytes)
    }
}

impl vstd::std_specs::convert::FromSpecImpl<Vec<u8>> for MaskedBytes {
    open spec fn obeys_from_spec() -> bool {
        false
    }

    open spec fn from_spec(bytes: Vec<u8>) -> Self {
        arbitrary()
    }
}

impl From<String> for MaskedBytes {
    /// A pattern in which every bit of the bytes of `string` counts.
    fn from(string: String) -> (r: Self)
        ensures
            r.bytes@ == vstd::utf8::encode_utf8(string@),
            r.mask@ == full_mask(r.bytes@.len()),
    {
        MaskedBytes::exact(vstd::slice::slice_to_vec(string.as_str().as_bytes()))
    }
}

impl vstd::std_specs::convert::FromSpecImpl<String> for MaskedBytes {
    open spec fn obeys_from_spec() -> bool {
        false
    }

    open spec fn from_spec(string: String) -> Self {
        arbitrary()
    }
}

impl Default for MaskedBytes {
    fn default() -> (r: Self)
        ensures
            r.bytes@.len() == 0,
            r.mask@.len() == 0,
    {
        MaskedBytes::empty()
    }
}

/// Reads a pattern, or reports the first byte that does not belong to one.
pub fn try_decode_hex_nibbles(s: &str) -> (r: Result<MaskedBytes, InvalidByte>)
    ensures
        r is Ok <==> is_pattern(s.spec_bytes()),
        r matches Ok(m) ==> m.wf() && m.bytes@ == pattern_bytes(s.spec_bytes()) && m.mask@
            == pattern_mask(s.spec_bytes()),
        r matches Err(e) ==> body_start(s.spec_bytes()) <= e.offset < s.spec_bytes().len()
            && e.byte == s.spec_bytes()[e.offset as int] && !is_nibble(e.byte) && !is_separator(
            e.byte,
        ) && forall|j: int|
            body_start(s.spec_bytes()) <= j < e.offset ==> is_nibble(#[trigger] s.spec_bytes()[j])
                || is_separator(s.spec_bytes()[j]),
{
    let raw = s.as_bytes();
    let start: usize = if raw.len() >= 2 && raw[0] == 0x30 && (raw[1] == 0x78 || raw[1] == 0x58) {
        2
    } else {
        0
    };
    let capacity = (raw.len() - start) / 2 + 1;
    let mut bytes: Vec<u8> = Vec::with_capacity(capacity);
    let mut mask: Vec<u8> = Vec::with_capacity(capacity);
    let mut buffer: Option<(u8, u8)> = None;
    let ghost body = raw@.skip(start as int);
    let ghost mut seen: Seq<u8> = Seq::empty();
    let mut i: usize = start;
    proof {
        assert(body.take(0) =~= Seq::<u8>::empty());
    }
    while i < raw.len()
        invariant
            raw@ == s.spec_bytes(),
            start == body_start(raw@),
            body == raw@.skip(start as int),
            start <= i <= raw.len(),
            seen == nibbles(body.take(i - start)),
            forall|j: int| start <= j < i ==> is_nibble(#[trigger] raw@[j]) || is_separator(raw@[j]),
            forall|j: int| 0 <= j < seen.len() ==> is_nibble(#[trigger] seen[j]),
            bytes@.len() == seen.len() / 2,
            mask@.len() == seen.len() / 2,
            forall|k: int|
                0 <= k < bytes@.len() ==> #[trigger] bytes@[k] == 16 * nibble_value(seen[2 * k])
                    + nibble_value(seen[2 * k + 1]),
            forall|k: int|
                0 <= k < mask@.len() ==> #[trigger] mask@[k] == 16 * nibble_mask(seen[2 * k])
                    + nibble_mask(seen[2 * k + 1]),
            seen.len() % 2 == 0 ==> buffer is None,
            seen.len() % 2 == 1 ==> buffer == Some(
                ((16 * nibble_value(seen.last())) as u8, (16 * nibble_mask(seen.last())) as u8),
            ),
        decreases raw.len() - i,
    {
        let byte = raw[i];
        proof {
            assert(body.take(i + 1 - start).drop_last() =~= body.take(i - start));
            assert(body.take(i + 1 - start).last() == byte);
        }
        let mut nibble: u8 = 0x0;
        let mut nibble_mask: u8 = 0xf;
        if 0x30 <= byte && byte <= 0x39 {
            nibble = byte - 0x30;
        } else if 0x61 <= byte && byte <= 0x66 {
            nibble = byte - 0x61 + 0xa;
        } else if 0x41 <= byte && byte <= 0x46 {
            nibble = byte - 0x41 + 0xa;
        } else if byte == 0x5f {
            nibble_mask = 0x0;
        } else if byte == 0x20 || byte == 0x0a || byte == 0x09 || byte == 0x2c || byte == 0x3b
            || byte == 0x22 || byte == 0x27 {
            i += 1;
            continue ;
        } else {
            return Err(InvalidByte { byte, offset: i });
        }
        proof {
            lemma_pack_nibbles(nibble, nibble_mask);
            lemma_pack_nibbles(nibble_mask, nibble);
        }
        let ghost before = seen;
        proof {
            seen = seen.push(byte);
        }
        match buffer {
            Some((high, high_mask)) => {
                proof {
                    lemma_pack_nibbles((high / 16) as u8, nibble);
                    lemma_pack_nibbles((high_mask / 16) as u8, nibble_mask);
                }
                bytes.push(high | nibble);
                mask.push(high_mask | nibble_mask);
                buffer = None;
            },
            None => {
                buffer = Some((nibble << 4, nibble_mask << 4));
            },
        }
        i += 1;
    }
    proof {
        assert(body.take(i - start) =~= body);
    }
    if let Some((high, high_mask)) = buffer {
        bytes.push(high);
        mask.push(high_mask);
    }
    proof {
        let values = seen.map_values(|b: u8| nibble_value(b));
        let masks = seen.map_values(|b: u8| nibble_mask(b));
        assert(bytes@ =~= packed(values));
        assert(mask@ =~= packed(masks));
    }
    Ok(MaskedBytes { bytes, mask })
}

/// Reads a pattern of hexadecimal nibbles: digits, `_` for a nibble that does
/// not matter, separators that are skipped, and an optional leading `0x`.
pub fn decode_hex_nibbles(s: &str) -> (r: MaskedBytes)
    requires
        is_pattern(s.spec_bytes()),
    ensures
        r.wf(),
        r.bytes@ == pattern_bytes(s.spec_bytes()),
        r.mask@ == pattern_mask(s.spec_bytes()),
{
    match try_decode_hex_nibbles(s) {
        Ok(masked) => masked,
        Err(_) => vstd::pervasive::unreached(),
    }
}

} // verus!
