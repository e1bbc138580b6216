//! A write-ahead log of mutation records.
//!
//! Each record is framed as `[crc32 u32][len u32][payload len bytes]`, all
//! little-endian, and the file is flushed to disk after every append. On
//! replay, records are read until one is short or fails its checksum, which is
//! exactly the signature of a write torn by a crash; everything up to that
//! point is durable and is returned. What is behind that point has to be cut off
//! before the next append, for a record behind a torn one is never read.

use vstd::prelude::*;

use crate::codec;

verus! {

/// The checksum's polynomial, bit-reversed.
pub const POLYNOMIAL: u32 = 0xEDB8_8320;

/// The register of the checksum shifted by one bit.
pub open spec fn shifted(c: u32) -> u32 {
    if c & 1 == 1 {
        (c >> 1u32) ^ POLYNOMIAL
    } else {
        c >> 1u32
    }
}

/// The register of the checksum shifted by `n` bits.
pub open spec fn shifted_by(c: u32, n: nat) -> u32
    decreases n,
{
    if n == 0 {
        c
    } else {
        shifted(shifted_by(c, (n - 1) as nat))
    }
}

/// The register of the checksum after the bytes have gone through it.
pub open spec fn register(data: Seq<u8>) -> u32
    decreases data.len(),
{
    if data.len() == 0 {
        0xFFFF_FFFF
    } else {
        shifted_by(register(data.drop_last()) ^ (data.last() as u32), 8)
    }
}

/// The IEEE CRC-32 of `data`.
pub open spec fn checksum(data: Seq<u8>) -> u32 {
    !register(data)
}

/// A record as it stands in the log.
pub open spec fn framed(payload: Seq<u8>) -> Seq<u8> {
    codec::le32(checksum(payload)) + codec::prefixed(payload)
}

/// The record at `pos`, if it is all there and its checksum is right.
pub open spec fn record_at(log: Seq<u8>, pos: int) -> Option<Seq<u8>> {
    match codec::string_at(log, pos + 4) {
        Some(payload) => if checksum(payload) == codec::number(log, pos) {
            Some(payload)
        } else {
            None
        },
        None => None,
    }
}

/// The records from `pos` on, up to the first that is short or fails its
/// checksum.
pub open spec fn records_from(log: Seq<u8>, pos: int) -> Seq<Seq<u8>>
    decreases log.len() - pos,
    when 0 <= pos
{
    match record_at(log, pos) {
        Some(payload) => seq![payload] + records_from(log, pos + 8 + payload.len()),
        None => seq![],
    }
}

/// The intact records of a log.
pub open spec fn records(log: Seq<u8>) -> Seq<Seq<u8>> {
    records_from(log, 0)
}

/// The log that appending the payloads, one after the other, leaves.
pub open spec fn log_of(payloads: Seq<Seq<u8>>) -> Seq<u8>
    decreases payloads.len(),
{
    if payloads.len() == 0 {
        seq![]
    } else {
        framed(payloads[0]) + log_of(payloads.drop_first())
    }
}

/// How many bytes of a log its intact records take up.
pub open spec fn intact(log: Seq<u8>) -> nat {
    log_of(records(log)).len()
}

/// The byte strings that a list of vectors holds.
pub open spec fn contents(v: Seq<Vec<u8>>) -> Seq<Seq<u8>> {
    v.map_values(|x: Vec<u8>| x@)
}

/// IEEE CRC-32 of `data` (bit-reversed, polynomial `0xEDB88320`).
pub fn crc32(data: &[u8]) -> (r: u32)
    ensures
        r == checksum(data@),
{
    let mut crc: u32 = 0xFFFF_FFFF;
    let mut i: usize = 0;
    assert(data@.take(0) =~= Seq::<u8>::empty());
    while i < data.len()
        invariant
            i <= data.len(),
            crc == register(data@.take(i as int)),
        decreases data.len() - i,
    {
        let ghost part = data@.take(i + 1);
        assert(part.drop_last() =~= data@.take(i as int));
        crc = crc ^ (data[i] as u32);
        let ghost start = crc;
        let mut n: usize = 0;
        while n < 8
            invariant
                n <= 8,
                crc == shifted_by(start, n as nat),
            decreases 8 - n,
        {
            crc = if crc & 1 == 1 {
                (crc >> 1u32) ^ POLYNOMIAL
            } else {
                crc >> 1u32
            };
            n += 1;
        }
        i += 1;
    }
    assert(data@.take(i as int) =~= data@);
    !crc
}

/// The frame to append to the log for one record.
pub fn frame(payload: &[u8]) -> (r: Vec<u8>)
    ensures
        r@ == framed(payload@),
{
    let mut r: Vec<u8> = Vec::new();
    codec::put_u32(&mut r, crc32(payload));
    codec::put_lp(&mut r, payload);
    assert(r@ =~= framed(payload@));
    r
}

/// Reads every intact record from the bytes of a log, stopping at the first
/// truncated or corrupt record (a crash-torn tail). The number says where that is.
pub fn scan(bytes: &[u8]) -> (r: (Vec<Vec<u8>>, usize))
    ensures
        contents(r.0@) == records(bytes@),
        r.1 == intact(bytes@),
        r.1 <= bytes@.len(),
{
    let mut found: Vec<Vec<u8>> = Vec::new();
    let mut pos: usize = 0;
    assert(contents(found@) =~= Seq::<Seq<u8>>::empty());
    loop
        invariant
            pos <= bytes@.len(),
            pos == log_of(contents(found@)).len(),
            contents(found@) + records_from(bytes@, pos as int) == records(bytes@),
        ensures
            pos <= bytes@.len(),
            pos == log_of(contents(found@)).len(),
            contents(found@) == records(bytes@),
        decreases bytes@.len() - pos,
    {
        let ghost here = pos as int;
        let crc: u32 = match codec::get_u32(bytes, pos) {
            Some(crc) => crc,
            None => {
                assert(contents(found@) + records_from(bytes@, here) =~= contents(found@));
                break;
            },
        };
        assert(bytes@.len() == bytes.len());
        let mut next: usize = pos + 4;
        let payload = match codec::get_lp(bytes, &mut next) {
            Some(payload) => payload,
            None => {
                // Truncated tail.
                assert(contents(found@) + records_from(bytes@, here) =~= contents(found@));
                break;
            },
        };
        if crc32(payload) != crc {
            // Corrupt tail.
            assert(contents(found@) + records_from(bytes@, here) =~= contents(found@));
            break;
        }
        let ghost before = contents(found@);
        found.push(codec::copied(payload));
        assert(contents(found@) =~= before.push(payload@));
        assert(contents(found@) + records_from(bytes@, next as int) =~= before + records_from(
            bytes@,
            here,
        ));
        proof {
            law_append_adds_one_record(before, payload@);
            lemma_frame_len(payload@);
        }
        pos = next;
    }
    (found, pos)
}

/// Reads every intact record from the bytes of a log, stopping at the first
/// truncated or corrupt record (a crash-torn tail).
pub fn replay(bytes: &[u8]) -> (r: Vec<Vec<u8>>)
    ensures
        contents(r@) == records(bytes@),
{
    scan(bytes).0
}

/// How much of a log its intact records take up, which is what is left of it
/// once the torn tail is cut off.
pub fn intact_len(bytes: &[u8]) -> (r: usize)
    ensures
        r == intact(bytes@),
        r <= bytes@.len(),
{
    scan(bytes).1
}

/// What a log holds does not depend on what stands before it.
proof fn lemma_records_shift(before: Seq<u8>, log: Seq<u8>, pos: int)
    requires
        0 <= pos <= log.len(),
    ensures
        records_from(before + log, before.len() + pos) == records_from(log, pos),
    decreases log.len() - pos,
{
    let all = before + log;
    let p = before.len() + pos;
    assert(record_at(all, p) == record_at(log, pos)) by {
        if pos + 8 <= log.len() {
            assert(codec::number(all, p) == codec::number(log, pos));
            assert(codec::number(all, p + 4) == codec::number(log, pos + 4));
            let n = codec::number(log, pos + 4) as int;
            if pos + 8 + n <= log.len() {
                assert(all.subrange(p + 8, p + 8 + n) =~= log.subrange(pos + 8, pos + 8 + n));
            }
        }
    }
    match record_at(log, pos) {
        Some(payload) => {
            lemma_records_shift(before, log, pos + 8 + payload.len());
        },
        None => {},
    }
}

/// A frame stands at `pos` just if its payload is read there as a record.
proof fn lemma_frame_read(log: Seq<u8>, pos: int, payload: Seq<u8>)
    requires
        0 <= pos,
    ensures
        codec::short(payload) && codec::stands_at(log, pos, framed(payload)) <==> record_at(
            log,
            pos,
        ) == Some(payload),
{
    let crc = codec::le32(checksum(payload));
    codec::lemma_stands_both(log, pos, crc, codec::prefixed(payload));
    codec::law_numbers_round_trip(log, pos, checksum(payload));
    codec::law_strings_round_trip(log, pos + 4, payload);
    assert(crc.len() == 4);
}

proof fn lemma_first_record(payload: Seq<u8>, rest: Seq<u8>)
    requires
        codec::short(payload),
    ensures
        records(framed(payload) + rest) == seq![payload] + records(rest),
{
    codec::lemma_stands_first(framed(payload), rest);
    lemma_frame_read(framed(payload) + rest, 0, payload);
    lemma_records_shift(framed(payload), rest, 0);
    lemma_frame_len(payload);
}

proof fn lemma_frame_len(payload: Seq<u8>)
    ensures
        framed(payload).len() == 8 + payload.len(),
{
}

proof fn lemma_nothing_added(a: Seq<u8>)
    ensures
        a + Seq::<u8>::empty() == a,
        Seq::<u8>::empty() + a == a,
{
    assert(a + Seq::<u8>::empty() =~= a);
    assert(Seq::<u8>::empty() + a =~= a);
}

proof fn lemma_regroup(a: Seq<u8>, b: Seq<u8>, c: Seq<u8>)
    ensures
        (a + b) + c == a + (b + c),
{
    assert((a + b) + c =~= a + (b + c));
}

/// Whether every payload is short enough for its length to be written down.
pub open spec fn all_short(payloads: Seq<Seq<u8>>) -> bool {
    forall|i: int| 0 <= i < payloads.len() ==> codec::short(#[trigger] payloads[i])
}

/// Replaying a log gives back every record that was appended to it, in order, and
/// then whatever the bytes behind them hold.
pub proof fn law_replay_returns_what_was_appended(payloads: Seq<Seq<u8>>, tail: Seq<u8>)
    requires
        all_short(payloads),
    ensures
        records(log_of(payloads) + tail) == payloads + records(tail),
    decreases payloads.len(),
{
    if payloads.len() == 0 {
        assert(log_of(payloads) + tail =~= tail);
        assert(payloads + records(tail) =~= records(tail));
    } else {
        let rest = payloads.drop_first();
        law_replay_returns_what_was_appended(rest, tail);
        lemma_first_record(payloads[0], log_of(rest) + tail);
        lemma_regroup(framed(payloads[0]), log_of(rest), tail);
        assert(seq![payloads[0]] + (rest + records(tail)) =~= payloads + records(tail));
    }
}

/// Appending a record leaves the records before it and adds that one.
pub proof fn law_append_adds_one_record(payloads: Seq<Seq<u8>>, payload: Seq<u8>)
    ensures
        log_of(payloads.push(payload)) == log_of(payloads) + framed(payload),
    decreases payloads.len(),
{
    let all = payloads.push(payload);
    if payloads.len() == 0 {
        assert(all.drop_first() =~= payloads);
        assert(log_of(payloads) =~= seq![]);
        assert(all[0] == payload);
        lemma_nothing_added(framed(payload));
    } else {
        law_append_adds_one_record(payloads.drop_first(), payload);
        assert(all.drop_first() =~= payloads.drop_first().push(payload));
        assert(all[0] == payloads[0]);
        lemma_regroup(framed(payloads[0]), log_of(payloads.drop_first()), framed(payload));
    }
}

/// The records from `pos` on stand there as they were framed.
proof fn lemma_records_stand(log: Seq<u8>, pos: int)
    requires
        0 <= pos <= log.len(),
    ensures
        all_short(records_from(log, pos)),
        codec::stands_at(log, pos, log_of(records_from(log, pos))),
    decreases log.len() - pos,
{
    let all = records_from(log, pos);
    match record_at(log, pos) {
        Some(payload) => {
            let next = pos + 8 + payload.len();
            let rest = records_from(log, next);
            lemma_frame_read(log, pos, payload);
            lemma_frame_len(payload);
            codec::lemma_stands_within(log, pos, framed(payload));
            lemma_records_stand(log, next);
            codec::lemma_stands_both(log, pos, framed(payload), log_of(rest));
            assert(all =~= seq![payload] + rest);
            assert(all.drop_first() =~= rest);
            assert forall|i: int| 0 <= i < all.len() implies codec::short(#[trigger] all[i]) by {
                if i > 0 {
                    assert(all[i] == rest[i - 1]);
                }
            }
        },
        None => {
            codec::lemma_stands_empty(log, pos);
        },
    }
}

/// A log starts with its intact records as they were appended. Cutting off what
/// is behind them leaves what they say, and cutting again cuts off nothing.
pub proof fn law_cut_log_is_whole(log: Seq<u8>)
    ensures
        intact(log) <= log.len(),
        log.take(intact(log) as int) == log_of(records(log)),
        all_short(records(log)),
        records(log.take(intact(log) as int)) == records(log),
        intact(log.take(intact(log) as int)) == intact(log),
{
    let kept = records(log);
    lemma_records_stand(log, 0);
    codec::lemma_stands_within(log, 0, log_of(kept));
    reveal(codec::stands_at);
    assert(log.take(intact(log) as int) =~= log.subrange(0, 0int + log_of(kept).len()));
    law_replay_returns_what_was_appended(kept, seq![]);
    lemma_nothing_added(log_of(kept));
    assert(records(seq![]) =~= seq![]);
    assert(kept + records(seq![]) =~= kept);
}

/// A log that was made by appending records only has nothing to be cut off.
pub proof fn law_whole_log_stays(payloads: Seq<Seq<u8>>)
    requires
        all_short(payloads),
    ensures
        intact(log_of(payloads)) == log_of(payloads).len(),
{
    law_replay_returns_what_was_appended(payloads, seq![]);
    lemma_nothing_added(log_of(payloads));
    assert(records(seq![]) =~= seq![]);
    assert(payloads + records(seq![]) =~= payloads);
}

/// Behind the intact records of any log, however torn, appending goes on: what is
/// read from it then is what was read before, then what was appended, then
/// whatever the bytes behind that hold.
pub proof fn law_cut_log_takes_records(log: Seq<u8>, payloads: Seq<Seq<u8>>, tail: Seq<u8>)
    requires
        all_short(payloads),
    ensures
        records(log.take(intact(log) as int) + (log_of(payloads) + tail)) == records(log)
            + payloads + records(tail),
{
    law_cut_log_is_whole(log);
    law_replay_returns_what_was_appended(records(log), log_of(payloads) + tail);
    law_replay_returns_what_was_appended(payloads, tail);
    assert(records(log) + (payloads + records(tail)) =~= records(log) + payloads + records(tail));
}

/// A record that is appended behind the intact records of a log, however torn, is
/// read after them.
pub proof fn law_cut_log_goes_on(log: Seq<u8>, payload: Seq<u8>)
    requires
        codec::short(payload),
    ensures
        intact(log) <= log.len(),
        records(log.take(intact(log) as int) + framed(payload)) == records(log).push(payload),
{
    law_cut_log_is_whole(log);
    law_cut_log_takes_records(log, seq![payload], seq![]);
    assert(log_of(seq![payload]) == framed(payload)) by {
        assert(seq![payload].drop_first() =~= seq![]);
        lemma_nothing_added(framed(payload));
        assert(log_of(seq![payload].drop_first()) =~= seq![]);
    }
    lemma_nothing_added(framed(payload));
    assert(records(seq![]) =~= seq![]);
    assert(records(log) + seq![payload] + seq![] =~= records(log).push(payload));
}

/// A crash in the middle of an append loses nothing that was appended before: the
/// torn frame is not read, and neither is anything else.
pub proof fn law_torn_tail_is_ignored(payloads: Seq<Seq<u8>>, torn: Seq<u8>, n: int)
    requires
        all_short(payloads),
        codec::short(torn),
        0 <= n < framed(torn).len(),
    ensures
        records(log_of(payloads) + framed(torn).take(n)) == payloads,
{
    let whole = framed(torn);
    let tail = whole.take(n);
    law_replay_returns_what_was_appended(payloads, tail);
    if record_at(tail, 0) is Some {
        let other = record_at(tail, 0)->0;
        lemma_frame_read(tail, 0, other);
        codec::lemma_stands_before_cut(whole, n, framed(other));
        lemma_frame_read(whole, 0, other);
        codec::lemma_stands_whole(whole);
        lemma_frame_read(whole, 0, torn);
        lemma_frame_len(torn);
        lemma_frame_len(other);
    }
    assert(payloads + records(tail) =~= payloads);
}

/// A record that fails its checksum ends the replay, whatever follows it.
pub proof fn law_corrupt_record_ends_the_replay(
    payloads: Seq<Seq<u8>>,
    crc: u32,
    payload: Seq<u8>,
    rest: Seq<u8>,
)
    requires
        all_short(payloads),
        codec::short(payload),
        crc != checksum(payload),
    ensures
        records(log_of(payloads) + (codec::le32(crc) + codec::prefixed(payload) + rest)) == payloads,
{
    let head = codec::le32(crc);
    let tail = head + codec::prefixed(payload) + rest;
    law_replay_returns_what_was_appended(payloads, tail);
    codec::lemma_stands_first(head + codec::prefixed(payload), rest);
    codec::lemma_stands_both(tail, 0, head, codec::prefixed(payload));
    codec::law_numbers_round_trip(tail, 0, crc);
    codec::law_strings_round_trip(tail, 4, payload);
    assert(head.len() == 4);
    assert(payloads + records(tail) =~= payloads);
}

proof fn lemma_shifted_injective(a: u32, b: u32)
    requires
        shifted(a) == shifted(b),
    ensures
        a == b,
{
    assert((if a & 1 == 1 {
        (a >> 1u32) ^ 0xEDB8_8320u32
    } else {
        a >> 1u32
    }) == (if b & 1 == 1 {
        (b >> 1u32) ^ 0xEDB8_8320u32
    } else {
        b >> 1u32
    }) ==> a == b) by (bit_vector);
}

proof fn lemma_shifted_by_injective(a: u32, b: u32, n: nat)
    requires
        shifted_by(a, n) == shifted_by(b, n),
    ensures
        a == b,
    decreases n,
{
    if n > 0 {
        lemma_shifted_injective(shifted_by(a, (n - 1) as nat), shifted_by(b, (n - 1) as nat));
        lemma_shifted_by_injective(a, b, (n - 1) as nat);
    }
}

proof fn lemma_register_differs(a: Seq<u8>, b: Seq<u8>, at: int)
    requires
        a.len() == b.len(),
        0 <= at < a.len(),
        a[at] != b[at],
        forall|i: int| 0 <= i < a.len() && i != at ==> a[i] == b[i],
    ensures
        register(a) != register(b),
    decreases a.len(),
{
    let x = register(a.drop_last());
    let y = register(b.drop_last());
    let p = a.last() as u32;
    let q = b.last() as u32;
    if register(a) == register(b) {
        lemma_shifted_by_injective(x ^ p, y ^ q, 8);
        if at == a.len() - 1 {
            assert(a.drop_last() =~= b.drop_last());
            assert(x ^ p == x ^ q ==> p == q) by (bit_vector);
        } else {
            lemma_register_differs(a.drop_last(), b.drop_last(), at);
            assert(x ^ p == y ^ p ==> x == y) by (bit_vector);
        }
    }
}

/// A payload in which one byte was changed has another checksum.
pub proof fn law_changed_byte_fails_the_checksum(a: Seq<u8>, b: Seq<u8>, at: int)
    requires
        a.len() == b.len(),
        0 <= at < a.len(),
        a[at] != b[at],
        forall|i: int| 0 <= i < a.len() && i != at ==> a[i] == b[i],
    ensures
        checksum(a) != checksum(b),
{
    lemma_register_differs(a, b, at);
    let x = register(a);
    let y = register(b);
    assert(!x == !y ==> x == y) by (bit_vector);
}

/// The checksum of nothing is zero, and one more byte takes the checksum on from
/// where it was, however much came before.
pub proof fn law_checksum_goes_on(data: Seq<u8>, b: u8)
    ensures
        checksum(seq![]) == 0,
        !checksum(data.push(b)) == shifted_by(!checksum(data) ^ (b as u32), 8),
{
    assert(!0xFFFF_FFFFu32 == 0u32) by (bit_vector);
    let r = register(data);
    let s = register(data.push(b));
    assert(data.push(b).drop_last() =~= data);
    assert(!!r == r) by (bit_vector);
    assert(!!s == s) by (bit_vector);
}

/// A record stands in the log behind its checksum, of four bytes, and its length.
pub proof fn law_frame_is_checksum_and_payload(payload: Seq<u8>)
    ensures
        framed(payload).take(4) == codec::le32(checksum(payload)),
        framed(payload).skip(4) == codec::prefixed(payload),
{
    lemma_halves(codec::le32(checksum(payload)), codec::prefixed(payload));
}

proof fn lemma_halves(a: Seq<u8>, b: Seq<u8>)
    ensures
        (a + b).take(a.len() as int) == a,
        (a + b).skip(a.len() as int) == b,
{
    assert((a + b).take(a.len() as int) =~= a);
    assert((a + b).skip(a.len() as int) =~= b);
}

} // verus!
