//! Byte-level codec primitives: big-endian 32-bit integers, short
//! length-prefixed integer lists, and length-prefixed UTF-8 strings.
//!
//! Every encoder has a spec-level counterpart (`u32_bytes`, `u32_seq_bytes`,
//! `string_bytes`) and every decoder is proved equivalent to a spec-level
//! parser (`parse_u32_list`, `parse_string`), so that round-trip laws can be
//! stated and proved purely at the specification level.

use vstd::prelude::*;
use vstd::utf8::*;

verus! {

/// Why a buffer was refused by one of the decoders.
#[derive(Debug, Clone, Copy, PartialEq, Eq, Structural)]
pub enum CodecError {
    /// The value list is too long for a one-byte count.
    TooManyValues,
    /// The buffer does not hold what its length prefix announces.
    LengthMismatch,
    /// The string payload is not valid UTF-8.
    InvalidUtf8,
}

// Spec-level encodings ---------------------------------------------------------

/// The four big-endian base-256 digits of a 32-bit value.
pub open spec fn u32_bytes(v: u32) -> Seq<u8> {
    seq![
        (v / 0x1000000) as u8,
        ((v / 0x10000) % 0x100) as u8,
        ((v / 0x100) % 0x100) as u8,
        (v % 0x100) as u8,
    ]
}

/// The 32-bit value read back from four big-endian digits.
pub open spec fn bytes_u32(b: Seq<u8>) -> u32
    recommends
        b.len() == 4,
{
    ((b[0] as int) * 0x1000000 + (b[1] as int) * 0x10000 + (b[2] as int) * 0x100 + (
    b[3] as int)) as u32
}

/// Concatenated big-endian encodings of a list of 32-bit values.
pub open spec fn u32_seq_bytes(l: Seq<u32>) -> Seq<u8>
    decreases l.len(),
{
    if l.len() == 0 {
        Seq::empty()
    } else {
        u32_bytes(l[0]) + u32_seq_bytes(l.drop_first())
    }
}

/// A string on the wire: the byte length as a big-endian `u32`, then the
/// UTF-8 bytes.
pub open spec fn string_bytes(s: Seq<char>) -> Seq<u8> {
    u32_bytes(encode_utf8(s).len() as u32) + encode_utf8(s)
}

// Spec-level parsers -----------------------------------------------------------

/// Parse a one-byte count followed by that many big-endian 32-bit values.
/// The count must agree exactly with the residue.
pub open spec fn parse_u32_list(b: Seq<u8>) -> Option<Seq<u32>> {
    if b.len() < 1 {
        None
    } else if (b.len() - 1) % 4 != 0 || (b[0] as int) != (b.len() - 1) / 4 {
        None
    } else {
        Some(Seq::new(((b.len() - 1) / 4) as nat, |i: int| bytes_u32(b.subrange(1 + 4 * i, 5 + 4 * i))))
    }
}

/// Parse a length-prefixed UTF-8 string. The prefix must agree exactly with
/// the residue, and the residue must be valid UTF-8.
pub open spec fn parse_string(b: Seq<u8>) -> Option<Seq<char>> {
    if b.len() < 4 {
        None
    } else if (bytes_u32(b.subrange(0, 4)) as int) != b.len() - 4 {
        None
    } else if !valid_utf8(b.skip(4)) {
        None
    } else {
        Some(decode_utf8(b.skip(4)))
    }
}

// Round-trip laws --------------------------------------------------------------

/// Reading back the four digits of a value gives the value.
pub proof fn lemma_u32_round_trip(v: u32)
    ensures
        bytes_u32(u32_bytes(v)) == v,
{
    assert((v / 0x1000000) * 0x1000000 + ((v / 0x10000) % 0x100) * 0x10000 + ((v / 0x100)
        % 0x100) * 0x100 + (v % 0x100) == v) by (bit_vector);
}

/// The encoding of a list of `n` values takes `4 * n` bytes.
pub proof fn lemma_u32_seq_bytes_len(l: Seq<u32>)
    ensures
        u32_seq_bytes(l).len() == 4 * l.len(),
    decreases l.len(),
{
    if l.len() > 0 {
        lemma_u32_seq_bytes_len(l.drop_first());
    }
}

/// Appending one value to a list appends its four digits to the encoding.
pub proof fn lemma_u32_seq_bytes_push(l: Seq<u32>, v: u32)
    ensures
        u32_seq_bytes(l.push(v)) == u32_seq_bytes(l) + u32_bytes(v),
    decreases l.len(),
{
    if l.len() == 0 {
        assert(l.push(v)[0] == v);
        assert(l.push(v).drop_first() =~= Seq::<u32>::empty());
        assert(u32_seq_bytes(Seq::<u32>::empty()) =~= Seq::<u8>::empty());
        assert(u32_seq_bytes(l.push(v)) == u32_bytes(v) + u32_seq_bytes(Seq::<u32>::empty()));
        assert(u32_seq_bytes(l.push(v)) =~= u32_seq_bytes(l) + u32_bytes(v));
    } else {
        lemma_u32_seq_bytes_push(l.drop_first(), v);
        assert(l.push(v).drop_first() =~= l.drop_first().push(v));
        assert(u32_seq_bytes(l.push(v)) =~= u32_seq_bytes(l) + u32_bytes(v));
    }
}

/// The `i`-th value of a list sits at bytes `4 i .. 4 i + 4` of the
/// encoding.
pub proof fn lemma_u32_seq_bytes_index(l: Seq<u32>, i: int)
    requires
        0 <= i < l.len(),
    ensures
        u32_seq_bytes(l).subrange(4 * i, 4 * i + 4) =~= u32_bytes(l[i]),
    decreases l.len(),
{
    lemma_u32_seq_bytes_len(l.drop_first());
    if i == 0 {
        assert(u32_seq_bytes(l).subrange(0, 4) =~= u32_bytes(l[0]));
    } else {
        lemma_u32_seq_bytes_index(l.drop_first(), i - 1);
        assert(u32_seq_bytes(l).subrange(4 * i, 4 * i + 4) =~= u32_seq_bytes(
            l.drop_first(),
        ).subrange(4 * (i - 1), 4 * (i - 1) + 4));
    }
}

/// Round trip for short lists: parsing the encoding of a list of at most
/// 255 values gives the list back.
pub proof fn lemma_u32_list_round_trip(l: Seq<u32>)
    requires
        l.len() <= 255,
    ensures
        parse_u32_list(seq![l.len() as u8] + u32_seq_bytes(l)) == Some(l),
{
    let b = seq![l.len() as u8] + u32_seq_bytes(l);
    lemma_u32_seq_bytes_len(l);
    let parsed = Seq::new(((b.len() - 1) / 4) as nat, |i: int| bytes_u32(b.subrange(1 + 4 * i, 5 + 4 * i)));
    assert forall|i: int| 0 <= i < l.len() implies parsed[i] == l[i] by {
        assert(b.subrange(1 + 4 * i, 5 + 4 * i) =~= u32_seq_bytes(l).subrange(4 * i, 4 * i + 4));
        lemma_u32_seq_bytes_index(l, i);
        lemma_u32_round_trip(l[i]);
    }
    assert(parsed =~= l);
}

/// Round trip for strings whose byte length fits the 32-bit prefix.
pub proof fn lemma_string_round_trip(s: Seq<char>)
    requires
        encode_utf8(s).len() <= u32::MAX,
    ensures
        parse_string(string_bytes(s)) == Some(s),
{
    broadcast use encode_utf8_valid_utf8, encode_utf8_decode_utf8;

    let b = string_bytes(s);
    lemma_u32_round_trip(encode_utf8(s).len() as u32);
    assert(b.subrange(0, 4) =~= u32_bytes(encode_utf8(s).len() as u32));
    assert(b.skip(4) =~= encode_utf8(s));
}

// Executable converters --------------------------------------------------------

/// Split a 32-bit value into its four big-endian bytes.
pub fn u32_to_u8_array(value: u32) -> (r: [u8; 4])
    ensures
        r@ == u32_bytes(value),
{
    let b1: u8 = (value / 0x1000000) as u8;
    let b2: u8 = ((value / 0x10000) % 0x100) as u8;
    let b3: u8 = ((value / 0x100) % 0x100) as u8;
    let b4: u8 = (value % 0x100) as u8;
    let r = [b1, b2, b3, b4];
    proof {
        assert(r@ =~= u32_bytes(value));
    }
    r
}

/// Read a 32-bit value back from its four big-endian bytes.
pub fn u8_array_to_u32(array: &[u8; 4]) -> (r: u32)
    ensures
        r == bytes_u32(array@),
{
    (array[0] as u32) * 0x1000000 + (array[1] as u32) * 0x10000 + (array[2] as u32) * 0x100 + (
    array[3] as u32)
}

/// Encode a list of up to 256 values as a one-byte count followed by the
/// big-endian values. A longer list is refused.
pub fn u32_list_to_u8_array(list: &[u32]) -> (r: Result<Vec<u8>, CodecError>)
    ensures
        match r {
            Ok(buf) => list@.len() <= 256 && buf@ == seq![list@.len() as u8] + u32_seq_bytes(list@),
            Err(e) => list@.len() > 256 && e == CodecError::TooManyValues,
        },
{
    if list.len() > 256 {
        return Err(CodecError::TooManyValues);
    }
    let mut buf: Vec<u8> = Vec::new();
    buf.push(list.len() as u8);
    let mut i: usize = 0;
    while i < list.len()
        invariant
            i <= list@.len() <= 256,
            buf@ == seq![list@.len() as u8] + u32_seq_bytes(list@.take(i as int)),
        decreases list@.len() - i,
    {
        let word = u32_to_u8_array(list[i]);
        buf.push(word[0]);
        buf.push(word[1]);
        buf.push(word[2]);
        buf.push(word[3]);
        proof {
            lemma_u32_seq_bytes_push(list@.take(i as int), list@[i as int]);
            assert(list@.take(i + 1) =~= list@.take(i as int).push(list@[i as int]));
            assert(buf@ =~= seq![list@.len() as u8] + u32_seq_bytes(list@.take(i + 1)));
        }
        i += 1;
    }
    proof {
        assert(list@.take(list@.len() as int) =~= list@);
    }
    Ok(buf)
}

/// Encode a list of up to 256 values; the caller guarantees the bound, so
/// this variant cannot fail.
pub fn u32_list_to_u8_array_unfailable(list: &[u32]) -> (r: Vec<u8>)
    requires
        list@.len() <= 256,
    ensures
        r@ == seq![list@.len() as u8] + u32_seq_bytes(list@),
{
    match u32_list_to_u8_array(list) {
        Ok(buf) => buf,
        Err(_) => {
            proof {
                assert(false);
            }
            Vec::new()
        },
    }
}

/// Decode a one-byte count followed by big-endian 32-bit values. The count
/// must agree exactly with the residue.
pub fn u8_array_to_u32_list(array: &[u8]) -> (r: Result<Vec<u32>, CodecError>)
    ensures
        match r {
            Ok(list) => parse_u32_list(array@) == Some(list@),
            Err(_) => parse_u32_list(array@) is None,
        },
{
    if array.len() < 1 {
        return Err(CodecError::LengthMismatch);
    }
    let size = array[0] as usize;
    if size != (array.len() - 1) / 4 || (array.len() - 1) % 4 != 0 {
        return Err(CodecError::LengthMismatch);
    }
    let mut res: Vec<u32> = Vec::new();
    let mut i: usize = 0;
    while i < size
        invariant
            0 <= i <= size <= 255,
            array@.len() == 1 + 4 * size,
            res@.len() == i,
            forall|j: int|
                0 <= j < i ==> res@[j] == bytes_u32(array@.subrange(1 + 4 * j, 5 + 4 * j)),
        decreases size - i,
    {
        let word: [u8; 4] = [array[1 + 4 * i], array[2 + 4 * i], array[3 + 4 * i], array[4 + 4 * i]];
        proof {
            assert(word@ =~= array@.subrange(1 + 4 * (i as int), 5 + 4 * (i as int)));
        }
        res.push(u8_array_to_u32(&word));
        i += 1;
    }
    proof {
        let parsed = parse_u32_list(array@).unwrap();
        assert(res@ =~= parsed);
    }
    Ok(res)
}

/// Encode a string as its UTF-8 byte length (big-endian `u32`) followed by
/// the UTF-8 bytes. The byte length must fit the prefix.
pub fn string_to_u8_array(str: String) -> (r: Vec<u8>)
    requires
        encode_utf8(str@).len() <= u32::MAX,
    ensures
        r@ == string_bytes(str@),
{
    let bytes_str = str.as_str().as_bytes_vec();
    let mut res: Vec<u8> = Vec::new();
    let prefix = u32_to_u8_array(bytes_str.len() as u32);
    res.push(prefix[0]);
    res.push(prefix[1]);
    res.push(prefix[2]);
    res.push(prefix[3]);
    let mut i: usize = 0;
    while i < bytes_str.len()
        invariant
            i <= bytes_str@.len(),
            bytes_str@ == encode_utf8(str@),
            encode_utf8(str@).len() <= u32::MAX,
            res@ == u32_bytes(bytes_str@.len() as u32) + bytes_str@.take(i as int),
        decreases bytes_str@.len() - i,
    {
        res.push(bytes_str[i]);
        proof {
            assert(bytes_str@.take(i + 1) =~= bytes_str@.take(i as int).push(bytes_str@[i as int]));
        }
        i += 1;
    }
    proof {
        assert(bytes_str@.take(bytes_str@.len() as int) =~= bytes_str@);
    }
    res
}

/// Decode a length-prefixed UTF-8 string. The prefix must agree exactly
/// with the residue, which must be valid UTF-8.
pub fn u8_array_to_string(array: &[u8]) -> (r: Result<String, CodecError>)
    ensures
        match r {
            Ok(s) => parse_string(array@) == Some(s@),
            Err(_) => parse_string(array@) is None,
        },
{
    if array.len() < 4 {
        return Err(CodecError::LengthMismatch);
    }
    let word: [u8; 4] = [array[0], array[1], array[2], array[3]];
    proof {
        assert(word@ =~= array@.subrange(0, 4));
    }
    let size = u8_array_to_u32(&word);
    if size as usize != array.len() - 4 {
        return Err(CodecError::LengthMismatch);
    }
    let mut raw: Vec<u8> = Vec::new();
    let mut i: usize = 4;
    while i < array.len()
        invariant
            4 <= i <= array@.len(),
            raw@ == array@.subrange(4, i as int),
        decreases array@.len() - i,
    {
        raw.push(array[i]);
        proof {
            assert(array@.subrange(4, i + 1) =~= array@.subrange(4, i as int).push(
                array@[i as int],
            ));
        }
        i += 1;
    }
    proof {
        assert(raw@ =~= array@.skip(4));
    }
    match bytes_to_utf8_string(raw) {
        Some(s) => Ok(s),
        None => Err(CodecError::InvalidUtf8),
    }
}

/// Append all bytes of `src` to `dst`.
pub fn push_bytes(dst: &mut Vec<u8>, src: &[u8])
    ensures
        final(dst)@ == old(dst)@ + src@,
{
    let mut i: usize = 0;
    while i < src.len()
        invariant
            i <= src@.len(),
            dst@ == old(dst)@ + src@.take(i as int),
        decreases src@.len() - i,
    {
        dst.push(src[i]);
        proof {
            assert(src@.take(i + 1) =~= src@.take(i as int).push(src@[i as int]));
        }
        i = i + 1;
    }
    proof {
        assert(src@.take(src@.len() as int) =~= src@);
    }
}

/// The bytes of `buf` from `from` (inclusive) to `to` (exclusive), copied
/// out.
pub fn copy_range(buf: &[u8], from: usize, to: usize) -> (r: Vec<u8>)
    requires
        from <= to <= buf@.len(),
    ensures
        r@ == buf@.subrange(from as int, to as int),
{
    let mut r: Vec<u8> = Vec::new();
    let mut i: usize = from;
    while i < to
        invariant
            from <= i <= to <= buf@.len(),
            r@ == buf@.subrange(from as int, i as int),
        decreases to - i,
    {
        r.push(buf[i]);
        proof {
            assert(buf@.subrange(from as int, i + 1) =~= buf@.subrange(from as int, i as int).push(
                buf@[i as int],
            ));
        }
        i = i + 1;
    }
    r
}

/// Relies on `String::from_utf8`: it succeeds exactly on valid UTF-8 input
/// and returns the string whose UTF-8 encoding is that input.
#[verifier::external_body]
pub fn bytes_to_utf8_string(bytes: Vec<u8>) -> (r: Option<String>)
    ensures
        match r {
            Some(s) => valid_utf8(bytes@) && s@ == decode_utf8(bytes@),
            None => !valid_utf8(bytes@),
        },
{
    String::from_utf8(bytes).ok()
}

} // verus!
