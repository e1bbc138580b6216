//! The integers and length-prefixed byte strings that the files are made of.

use vstd::prelude::*;

verus! {

/// How many values a 32-bit number can take.
pub const RANGE: u64 = 0x1_0000_0000;

/// A 32-bit number as four bytes, little-endian.
pub open spec fn le32(n: u32) -> Seq<u8> {
    seq![
        (n % 256) as u8,
        (n / 256 % 256) as u8,
        (n / 65536 % 256) as u8,
        (n / 16777216 % 256) as u8,
    ]
}

/// The number that four bytes at `pos` stand for, little-endian.
pub open spec fn number(data: Seq<u8>, pos: int) -> u32 {
    (data[pos] + 256 * data[pos + 1] + 65536 * data[pos + 2] + 16777216 * data[pos + 3]) as u32
}

/// A length as far as 32 bits hold it.
pub open spec fn length(bytes: Seq<u8>) -> u32 {
    (bytes.len() % 0x1_0000_0000) as u32
}

/// Whether a byte string is short enough for its length to be written down.
pub open spec fn short(bytes: Seq<u8>) -> bool {
    bytes.len() < RANGE
}

/// A byte string behind its length.
pub open spec fn prefixed(bytes: Seq<u8>) -> Seq<u8> {
    le32(length(bytes)) + bytes
}

/// The number at `pos`, if there are four bytes.
pub open spec fn number_at(data: Seq<u8>, pos: int) -> Option<u32> {
    if pos + 4 <= data.len() {
        Some(number(data, pos))
    } else {
        None
    }
}

/// The byte string behind a length at `pos`, if it is all there.
pub open spec fn string_at(data: Seq<u8>, pos: int) -> Option<Seq<u8>> {
    if pos + 4 <= data.len() && pos + 4 + number(data, pos) <= data.len() {
        Some(data.subrange(pos + 4, pos + 4 + number(data, pos)))
    } else {
        None
    }
}

/// Whether `part` stands in `data` at `pos`.
#[verifier::opaque]
pub open spec fn stands_at(data: Seq<u8>, pos: int, part: Seq<u8>) -> bool {
    &&& 0 <= pos
    &&& pos + part.len() <= data.len()
    &&& data.subrange(pos, pos + part.len()) == part
}

/// What is written first stands at the start.
pub proof fn lemma_stands_first(part: Seq<u8>, rest: Seq<u8>)
    ensures
        stands_at(part + rest, 0, part),
{
    reveal(stands_at);
    assert((part + rest).subrange(0, part.len() as int) =~= part);
}

/// The whole stands at the start of itself.
pub proof fn lemma_stands_whole(data: Seq<u8>)
    ensures
        stands_at(data, 0, data),
{
    reveal(stands_at);
    assert(data.subrange(0, data.len() as int) =~= data);
}

/// The empty sequence stands everywhere.
pub proof fn lemma_stands_empty(data: Seq<u8>, pos: int)
    ensures
        stands_at(data, pos, seq![]) <==> 0 <= pos <= data.len(),
{
    reveal(stands_at);
    if 0 <= pos <= data.len() {
        assert(data.subrange(pos, pos) =~= seq![]);
    }
}

/// What stands somewhere is no longer than what is there.
pub proof fn lemma_stands_within(data: Seq<u8>, pos: int, part: Seq<u8>)
    requires
        stands_at(data, pos, part),
    ensures
        0 <= pos,
        pos + part.len() <= data.len(),
{
    reveal(stands_at);
}

/// What stands at the start of a shortened sequence stood there before.
pub proof fn lemma_stands_before_cut(data: Seq<u8>, n: int, part: Seq<u8>)
    requires
        0 <= n <= data.len(),
        stands_at(data.take(n), 0, part),
    ensures
        stands_at(data, 0, part),
        part.len() <= n,
{
    reveal(stands_at);
    let k = part.len() as int;
    assert(data.take(n).subrange(0, k) =~= data.subrange(0, k));
}

/// Two parts stand one behind the other just if both together stand there.
pub proof fn lemma_stands_both(data: Seq<u8>, pos: int, a: Seq<u8>, b: Seq<u8>)
    ensures
        stands_at(data, pos, a + b) <==> stands_at(data, pos, a) && stands_at(
            data,
            pos + a.len(),
            b,
        ),
{
    reveal(stands_at);
    if stands_at(data, pos, a + b) {
        let whole = data.subrange(pos, pos + (a + b).len());
        assert(whole.subrange(0, a.len() as int) =~= data.subrange(pos, pos + a.len()));
        assert((a + b).subrange(0, a.len() as int) =~= a);
        assert(whole.subrange(a.len() as int, (a + b).len() as int) =~= data.subrange(
            pos + a.len(),
            pos + a.len() + b.len(),
        ));
        assert((a + b).subrange(a.len() as int, (a + b).len() as int) =~= b);
    }
    if stands_at(data, pos, a) && stands_at(data, pos + a.len(), b) {
        assert(data.subrange(pos, pos + (a + b).len()) =~= data.subrange(pos, pos + a.len())
            + data.subrange(pos + a.len(), pos + a.len() + b.len()));
    }
}

/// A byte stands where it is found.
pub proof fn lemma_byte_stands(data: Seq<u8>, pos: int, b: u8)
    ensures
        stands_at(data, pos, seq![b]) <==> 0 <= pos < data.len() && data[pos] == b,
{
    reveal(stands_at);
    let one = seq![b];
    if stands_at(data, pos, one) {
        assert(data.subrange(pos, pos + 1)[0] == one[0]);
    }
    if 0 <= pos < data.len() && data[pos] == b {
        assert(data.subrange(pos, pos + 1) =~= one);
    }
}

/// Four digits to base 256 are those of the number they make up.
proof fn lemma_digits(a: u8, b: u8, c: u8, d: u8)
    ensures
        ({
            let n = (a + 256 * b + 65536 * c + 16777216 * d) as u32;
            &&& n == a + 256 * b + 65536 * c + 16777216 * d
            &&& n % 256 == a
            &&& n / 256 % 256 == b
            &&& n / 65536 % 256 == c
            &&& n / 16777216 % 256 == d
        }),
{
    let n = (a + 256 * b + 65536 * c + 16777216 * d) as u32;
    assert(n / 256 == b + 256 * c + 65536 * d);
    assert(n / 65536 == c + 256 * d);
    assert(n / 16777216 == d);
}

/// A number is made up by its four digits to base 256.
proof fn lemma_made_up(n: u32)
    ensures
        (n % 256) + 256 * (n / 256 % 256) + 65536 * (n / 65536 % 256) + 16777216 * (n / 16777216
            % 256) == n,
{
    assert(n / 65536 == n / 256 / 256);
    assert(n / 16777216 == n / 65536 / 256);
    assert(n / 16777216 < 256);
}

/// A number reads back as it was written, and is written as it was read.
pub proof fn law_numbers_round_trip(data: Seq<u8>, pos: int, n: u32)
    requires
        0 <= pos,
    ensures
        stands_at(data, pos, le32(n)) <==> number_at(data, pos) == Some(n),
{
    reveal(stands_at);
    if pos + 4 <= data.len() {
        let part = data.subrange(pos, pos + 4);
        assert(part[0] == data[pos] && part[1] == data[pos + 1] && part[2] == data[pos + 2]
            && part[3] == data[pos + 3]);
        if part == le32(n) {
            lemma_made_up(n);
        }
        if number(data, pos) == n {
            lemma_digits(data[pos], data[pos + 1], data[pos + 2], data[pos + 3]);
            assert(part =~= le32(n));
        }
    }
}

/// The bytes of a number are those that it is read from.
pub proof fn lemma_number_bytes(data: Seq<u8>, pos: int, j: int)
    requires
        0 <= pos,
        pos + 4 <= data.len(),
        0 <= j < 4,
    ensures
        le32(number(data, pos))[j] == data[pos + j],
{
    lemma_digits(data[pos], data[pos + 1], data[pos + 2], data[pos + 3]);
}

/// A number is read from its bytes.
pub proof fn lemma_number_from_bytes(data: Seq<u8>, pos: int, n: u32)
    requires
        data[pos] == le32(n)[0],
        data[pos + 1] == le32(n)[1],
        data[pos + 2] == le32(n)[2],
        data[pos + 3] == le32(n)[3],
    ensures
        number(data, pos) == n,
{
    lemma_made_up(n);
}

/// A byte string that is short enough reads back as it was written, and is
/// written as it was read. What is read is short enough.
pub proof fn law_strings_round_trip(data: Seq<u8>, pos: int, bytes: Seq<u8>)
    requires
        0 <= pos,
    ensures
        short(bytes) && stands_at(data, pos, prefixed(bytes)) <==> string_at(data, pos) == Some(
            bytes,
        ),
{
    let len = length(bytes);
    lemma_stands_both(data, pos, le32(len), bytes);
    law_numbers_round_trip(data, pos, len);
    if short(bytes) && stands_at(data, pos, prefixed(bytes)) {
        assert(len == bytes.len());
        assert(number(data, pos) == len);
        assert(data.subrange(pos + 4, pos + 4 + len) == bytes && pos + 4 + len <= data.len()) by {
            reveal(stands_at);
        }
    }
    if string_at(data, pos) == Some(bytes) {
        assert(bytes.len() == number(data, pos));
        assert(len == number(data, pos));
        assert(stands_at(data, pos + 4, bytes)) by {
            reveal(stands_at);
        }
    }
}

/// A byte string that is read stands where it is read, and its end is there.
pub proof fn lemma_string_read(data: Seq<u8>, pos: int)
    requires
        0 <= pos,
        string_at(data, pos) is Some,
    ensures
        ({
            let bytes = string_at(data, pos)->0;
            &&& short(bytes)
            &&& stands_at(data, pos, prefixed(bytes))
            &&& prefixed(bytes).len() == 4 + bytes.len()
            &&& pos + 4 + bytes.len() <= data.len()
        }),
{
    let bytes = string_at(data, pos)->0;
    law_strings_round_trip(data, pos, bytes);
    assert(le32(length(bytes)).len() == 4);
}

/// Appends a number.
pub fn put_u32(buf: &mut Vec<u8>, n: u32)
    ensures
        final(buf)@ == old(buf)@ + le32(n),
{
    buf.push((n % 256) as u8);
    buf.push((n / 256 % 256) as u8);
    buf.push((n / 65536 % 256) as u8);
    buf.push((n / 16777216 % 256) as u8);
    assert(buf@ =~= old(buf)@ + le32(n));
}

/// Appends bytes.
pub fn put_bytes(buf: &mut Vec<u8>, bytes: &[u8])
    ensures
        final(buf)@ == old(buf)@ + bytes@,
{
    buf.extend_from_slice(bytes);
    assert(buf@ =~= old(buf)@ + bytes@);
}

/// The length of a byte string, as far as 32 bits hold it.
pub fn short_len(len: usize) -> (r: u32)
    ensures
        r == len as nat % 0x1_0000_0000,
{
    (len as u64 % RANGE) as u32
}

/// Appends a byte string behind its length.
pub fn put_lp(buf: &mut Vec<u8>, bytes: &[u8])
    ensures
        final(buf)@ == old(buf)@ + prefixed(bytes@),
{
    put_u32(buf, short_len(bytes.len()));
    put_bytes(buf, bytes);
    assert(buf@ =~= old(buf)@ + prefixed(bytes@));
}

/// Reads the number at `pos`.
pub fn get_u32(data: &[u8], pos: usize) -> (r: Option<u32>)
    ensures
        r == number_at(data@, pos as int),
{
    if pos > data.len() || data.len() - pos < 4 {
        return None;
    }
    let n: u32 = data[pos] as u32 + 256 * data[pos + 1] as u32 + 65536 * data[pos + 2] as u32
        + 16777216 * data[pos + 3] as u32;
    Some(n)
}

/// Reads a length-prefixed slice from `data` at `*pos`, advancing `*pos`. Where the
/// slice is not all there, or `*pos` is behind the end, `*pos` stays.
pub fn get_lp<'a>(data: &'a [u8], pos: &mut usize) -> (r: Option<&'a [u8]>)
    ensures
        match r {
            Some(s) => {
                &&& string_at(data@, *old(pos) as int) == Some(s@)
                &&& *final(pos) == *old(pos) + 4 + s@.len()
                &&& *final(pos) <= data@.len()
            },
            None => string_at(data@, *old(pos) as int) is None && *final(pos) == *old(pos),
        },
{
    let len: usize = match get_u32(data, *pos) {
        Some(n) => n as usize,
        None => return None,
    };
    assert(data@.len() == data.len());
    let start: usize = *pos + 4;
    if data.len() - start < len {
        return None;
    }
    *pos = start + len;
    Some(&data[start..start + len])
}

/// A copy of the bytes.
pub fn copied(bytes: &[u8]) -> (r: Vec<u8>)
    ensures
        r@ == bytes@,
{
    let mut r: Vec<u8> = Vec::new();
    put_bytes(&mut r, bytes);
    assert(r@ =~= bytes@);
    r
}

/// A number is written with its lowest eight bits first.
pub proof fn law_numbers_are_written_lowest_bits_first(n: u32)
    ensures
        le32(n).len() == 4,
        le32(n)[0] == n & 0xFF,
        le32(n)[1] == (n >> 8u32) & 0xFF,
        le32(n)[2] == (n >> 16u32) & 0xFF,
        le32(n)[3] == (n >> 24u32) & 0xFF,
{
    assert(n % 256 == n & 0xFFu32) by (bit_vector);
    assert(n / 256 % 256 == (n >> 8u32) & 0xFFu32) by (bit_vector);
    assert(n / 65536 % 256 == (n >> 16u32) & 0xFFu32) by (bit_vector);
    assert(n / 16777216 % 256 == (n >> 24u32) & 0xFFu32) by (bit_vector);
}

/// A byte string stands behind its length of four bytes.
pub proof fn law_string_stands_behind_its_length(bytes: Seq<u8>)
    requires
        short(bytes),
    ensures
        prefixed(bytes).take(4) == le32(bytes.len() as u32),
        prefixed(bytes).skip(4) == bytes,
{
    assert(length(bytes) == bytes.len() as u32);
    assert(prefixed(bytes).take(4) =~= le32(bytes.len() as u32));
    assert(prefixed(bytes).skip(4) =~= bytes);
}

} // verus!
