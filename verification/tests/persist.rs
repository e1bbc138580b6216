use engram::bytemap::ByteMap;
use engram::codec;
use engram::persist::log_end::LogEnd;
use engram::persist::op::Op;
use engram::persist::recovery::{log_add, log_del, log_new, save, Recovery};
use engram::persist::replay::apply_snapshot_block;
use engram::persist::room::{addition_has_room, block_has_room};
use engram::persist::snapshot::{self, read, SnapBlock, SnapshotError};
use engram::persist::wal::{crc32, frame, intact_len, replay};
use engram::vector;
use engram::vector::float::{Float, Operation};
use engram::vector::index::CAPACITY;
use engram::vector::{Metric, VectorRegistry};

fn float(x: f32) -> Float {
    Float { bits: x.to_bits() }
}

fn packed(v: &[f32]) -> Vec<u8> {
    let floats: Vec<Float> = v.iter().map(|x| float(*x)).collect();
    vector::encode(&floats)
}

fn num(x: Float) -> f32 {
    f32::from_bits(x.bits)
}

fn arith(op: Operation<'_>) -> Float {
    float(match op {
        Operation::Dot(a, b) => a.iter().zip(b).map(|(x, y)| num(*x) * num(*y)).sum(),
        Operation::SquaredDistance(a, b) => a
            .iter()
            .zip(b)
            .map(|(x, y)| (num(*x) - num(*y)) * (num(*x) - num(*y)))
            .sum(),
        Operation::Subtract(a, b) => num(a) - num(b),
        Operation::Divide(a, b) => num(a) / num(b),
        Operation::SquareRoot(a) => num(a).sqrt(),
    })
}

fn level(numerator: u64, denominator: u64, m: usize) -> u8 {
    let u = numerator as f64 / denominator as f64;
    (-u.ln() / (m as f64).ln()) as u8
}

#[test]
fn op_new_roundtrips() {
    let enc = Op::encode_new(b"mem", 8, 1);
    match Op::decode(&enc) {
        Some(Op::New { name, dim, metric }) => {
            assert_eq!(name, b"mem");
            assert_eq!(dim, 8);
            assert_eq!(metric, 1);
        }
        _ => panic!("decode failed"),
    }
}

#[test]
fn op_add_roundtrips() {
    let enc = Op::encode_add(b"mem", b"k", &[1, 2, 3, 4]);
    match Op::decode(&enc) {
        Some(Op::Add { name, key, vec }) => {
            assert_eq!(name, b"mem");
            assert_eq!(key, b"k");
            assert_eq!(vec, vec![1, 2, 3, 4]);
        }
        _ => panic!("decode failed"),
    }
}

#[test]
fn op_del_roundtrips() {
    let enc = Op::encode_del(b"mem", b"k");
    match Op::decode(&enc) {
        Some(Op::Del { name, key }) => {
            assert_eq!(name, b"mem");
            assert_eq!(key, b"k");
        }
        _ => panic!("decode failed"),
    }
}

#[test]
fn decode_rejects_truncated() {
    let enc = Op::encode_add(b"mem", b"k", &[1, 2, 3, 4]);
    assert!(Op::decode(&enc[..enc.len() - 2]).is_none());
    assert!(Op::decode(&[]).is_none());
    assert!(Op::decode(&[99]).is_none());
}

#[test]
fn every_cut_record_is_rejected() {
    for enc in [
        Op::encode_new(b"mem", 8, 1),
        Op::encode_add(b"mem", b"k", &[1, 2, 3, 4]),
        Op::encode_del(b"mem", b"k"),
    ] {
        for n in 0..enc.len() {
            assert!(Op::decode(&enc[..n]).is_none(), "{n}");
        }
    }
}

#[test]
fn record_layout_is_fixed() {
    assert_eq!(
        Op::encode_new(b"ab", 258, 2),
        vec![1, 2, 0, 0, 0, b'a', b'b', 2, 1, 0, 0, 2]
    );
    assert_eq!(
        Op::encode_del(b"a", b""),
        vec![3, 1, 0, 0, 0, b'a', 0, 0, 0, 0]
    );
}

fn blocks() -> Vec<SnapBlock> {
    vec![
        SnapBlock {
            name: b"mem".to_vec(),
            dim: 2,
            metric: 1,
            entries: vec![
                (b"a".to_vec(), vec![1, 2, 3, 4, 5, 6, 7, 8]),
                (b"b".to_vec(), vec![9, 10, 11, 12, 13, 14, 15, 16]),
            ],
        },
        SnapBlock {
            name: b"other".to_vec(),
            dim: 1,
            metric: 0,
            entries: vec![],
        },
    ]
}

#[test]
fn write_then_read_roundtrips() {
    let bytes = snapshot::write(&blocks());
    let got = read(Some(&bytes)).unwrap();
    assert_eq!(got.len(), 2);
    assert_eq!(got[0].name, b"mem");
    assert_eq!(got[0].dim, 2);
    assert_eq!(got[0].metric, 1);
    assert_eq!(got[0].entries.len(), 2);
    assert_eq!(got[0].entries[1].0, b"b");
    assert_eq!(got[0].entries[1].1, vec![9, 10, 11, 12, 13, 14, 15, 16]);
    assert_eq!(got[1].name, b"other");
    assert!(got[1].entries.is_empty());
}

#[test]
fn read_missing_is_empty() {
    assert!(read(None).unwrap().is_empty());
}

#[test]
fn corrupt_magic_is_error() {
    assert!(read(Some(b"NOTMAGIC....")).is_err());
    assert!(matches!(read(Some(b"")), Err(SnapshotError::Corrupt)));
}

#[test]
fn every_cut_snapshot_is_an_error() {
    let bytes = snapshot::write(&blocks());
    for n in 0..bytes.len() {
        assert!(read(Some(&bytes[..n])).is_err(), "{n}");
    }
    // What follows the blocks is ignored.
    let mut longer = bytes.clone();
    longer.extend_from_slice(b"tail");
    assert_eq!(read(Some(&longer)).unwrap().len(), 2);
}

#[test]
fn snapshot_layout_is_fixed() {
    let mut expected = b"EGSNAPv1".to_vec();
    expected.extend_from_slice(&[1, 0, 0, 0, 1, 0, 0, 0, b'x', 3, 0, 0, 0, 2, 0, 0, 0, 0]);
    let block = SnapBlock {
        name: b"x".to_vec(),
        dim: 3,
        metric: 2,
        entries: vec![],
    };
    assert_eq!(snapshot::write(&[block]), expected);
}

#[test]
fn crc32_known_value() {
    // "123456789" => 0xCBF43926, the canonical CRC-32 check value.
    assert_eq!(crc32(b"123456789"), 0xCBF4_3926);
}

fn log(payloads: &[&[u8]]) -> Vec<u8> {
    payloads.iter().flat_map(|p| frame(p)).collect()
}

#[test]
fn append_then_replay_roundtrips() {
    let recs = replay(&log(&[b"alpha", b"beta", b"", b"gamma"]));
    assert_eq!(
        recs,
        vec![
            b"alpha".to_vec(),
            b"beta".to_vec(),
            vec![],
            b"gamma".to_vec()
        ]
    );
}

#[test]
fn replay_stops_at_torn_tail() {
    let mut bytes = log(&[b"good1", b"good2"]);
    // A crash mid-write: a header promising 100 bytes, then 3.
    bytes.extend_from_slice(&crc32(b"x").to_le_bytes());
    bytes.extend_from_slice(&100u32.to_le_bytes());
    bytes.extend_from_slice(b"abc");
    assert_eq!(replay(&bytes), vec![b"good1".to_vec(), b"good2".to_vec()]);
}

#[test]
fn replay_stops_at_bad_crc() {
    let mut bytes = log(&[b"ok"]);
    // A full frame whose crc does not match the payload.
    bytes.extend_from_slice(&0xDEAD_BEEFu32.to_le_bytes());
    bytes.extend_from_slice(&4u32.to_le_bytes());
    bytes.extend_from_slice(b"junk");
    assert_eq!(replay(&bytes), vec![b"ok".to_vec()]);
}

#[test]
fn replay_missing_file_is_empty() {
    let recovery = Recovery::load(None, None).unwrap();
    assert!(recovery.restore(&arith, &level).unwrap().iter().is_empty());
}

#[test]
fn replay_survives_any_torn_last_append() {
    let whole = log(&[b"one", b"two", b"three"]);
    let last = frame(b"three").len();
    for cut in 1..=last {
        let recs = replay(&whole[..whole.len() - cut]);
        assert_eq!(recs, vec![b"one".to_vec(), b"two".to_vec()], "{cut}");
    }
}

#[test]
fn any_changed_byte_of_a_payload_is_noticed() {
    let whole = frame(b"payload");
    for at in 8..whole.len() {
        let mut changed = whole.clone();
        changed[at] ^= 0x10;
        assert!(replay(&changed).is_empty(), "{at}");
    }
}

#[test]
fn frames_hold_the_records() {
    assert_eq!(
        replay(&log_new(b"mem", 8, Metric::L2)),
        vec![Op::encode_new(b"mem", 8, 1)]
    );
    assert_eq!(
        replay(&log_add(b"mem", b"k", &[1, 2, 3, 4])),
        vec![Op::encode_add(b"mem", b"k", &[1, 2, 3, 4])]
    );
    assert_eq!(
        replay(&log_del(b"mem", b"k")),
        vec![Op::encode_del(b"mem", b"k")]
    );
}

#[test]
fn mutations_that_cannot_take_effect_are_passed_over() {
    let mut bytes = Vec::new();
    bytes.extend(frame(&Op::encode_add(b"none", b"k", &packed(&[1.0]))));
    bytes.extend(frame(&Op::encode_new(b"bad", 1, 9)));
    bytes.extend(frame(&Op::encode_new(b"mem", 1, 1)));
    bytes.extend(frame(&Op::encode_new(b"mem", 5, 0)));
    bytes.extend(frame(&Op::encode_add(b"mem", b"two", &packed(&[1.0, 2.0]))));
    bytes.extend(frame(&Op::encode_add(b"mem", b"raw", &[1, 2, 3])));
    bytes.extend(frame(b"gibberish"));
    bytes.extend(frame(&Op::encode_add(b"mem", b"k", &packed(&[1.0]))));
    bytes.extend(frame(&Op::encode_del(b"mem", b"absent")));
    bytes.extend(frame(&Op::encode_del(b"none", b"k")));
    let recovery = Recovery::load(None, Some(&bytes)).unwrap();
    let registry = recovery.restore(&arith, &level).unwrap();
    assert_eq!(registry.iter().len(), 1);
    let index = registry.get(b"mem").unwrap();
    assert_eq!(index.dim(), 1);
    assert_eq!(index.metric(), Metric::L2);
    assert_eq!(index.entries(), vec![(&b"k"[..], &[float(1.0)][..])]);
}

#[test]
fn corrupt_snapshot_stops_recovery() {
    let result = Recovery::load(Some(b"no snapshot"), None);
    assert!(matches!(result, Err(SnapshotError::Corrupt)));
}

#[test]
fn snapshot_blocks_take_effect_where_they_can() {
    let mut registry = VectorRegistry::new();
    let block = |name: &[u8], dim: u32, metric: u8, entries: Vec<(Vec<u8>, Vec<u8>)>| SnapBlock {
        name: name.to_vec(),
        dim,
        metric,
        entries,
    };
    let first = block(
        b"a",
        1,
        2,
        vec![
            (b"k".to_vec(), packed(&[4.0])),
            (b"wide".to_vec(), packed(&[4.0, 5.0])),
            (b"raw".to_vec(), vec![7]),
        ],
    );
    apply_snapshot_block(&mut registry, &first, &arith, &level);
    let unknown = block(b"b", 1, 3, vec![(b"k".to_vec(), packed(&[4.0]))]);
    apply_snapshot_block(&mut registry, &unknown, &arith, &level);
    let other = block(b"a", 2, 2, vec![(b"z".to_vec(), packed(&[1.0, 1.0]))]);
    apply_snapshot_block(&mut registry, &other, &arith, &level);
    assert_eq!(registry.iter().len(), 1);
    let index = registry.get(b"a").unwrap();
    assert_eq!(index.entries(), vec![(&b"k"[..], &[float(4.0)][..])]);
}

#[test]
fn snapshot_drops_tombstones() {
    let mut registry = VectorRegistry::new();
    registry.create(b"m".to_vec(), 1, Metric::Dot);
    let index = registry.get_mut(b"m").unwrap();
    for (key, x) in [(b"a", 1.0), (b"b", 2.0), (b"a", 3.0)] {
        index.add(key.to_vec(), vec![float(x)], &arith, &level);
    }
    index.remove(b"b");
    let got = read(Some(&save(&registry))).unwrap();
    assert_eq!(got.len(), 1);
    assert_eq!(got[0].metric, 2);
    assert_eq!(got[0].entries, vec![(b"a".to_vec(), packed(&[3.0]))]);
}

#[test]
fn strings_are_read_where_they_were_written() {
    let mut buf = vec![7];
    codec::put_lp(&mut buf, b"hello");
    codec::put_u32(&mut buf, 0x0102_0304);
    assert_eq!(&buf[1..5], &[5, 0, 0, 0]);
    assert_eq!(&buf[10..], &[4, 3, 2, 1]);
    let mut pos = 1;
    assert_eq!(codec::get_lp(&buf, &mut pos), Some(&b"hello"[..]));
    assert_eq!(pos, 10);
    assert_eq!(codec::get_u32(&buf, 10), Some(0x0102_0304));
    assert_eq!(codec::get_u32(&buf, 11), None);
    let mut late = 11;
    assert_eq!(codec::get_lp(&buf, &mut late), None);
}

#[test]
fn byte_map_behaves_like_a_map() {
    let mut map = ByteMap::new();
    for (i, key) in ["b", "", "ab", "a", "b"].iter().enumerate() {
        map.insert(key.as_bytes().to_vec(), i);
    }
    assert_eq!(map.len(), 4);
    assert_eq!(map.get(b"b"), Some(&4));
    assert_eq!(map.get(b"c"), None);
    *map.get_mut(b"a").unwrap() = 9;
    assert_eq!(map.entry(1), (&b"a".to_vec(), &9));
    assert_eq!(map.remove(b"ab"), Some(2));
    assert_eq!(map.remove(b"ab"), None);
    assert_eq!(map.len(), 3);
}

#[test]
fn torn_log_goes_on_behind_its_intact_records() {
    // A crash left a single byte of a record.
    let mut file = vec![0u8];
    let recovery = Recovery::load(None, Some(&file)).unwrap();
    let mut end = recovery.log_end();
    assert_eq!(end, LogEnd { len: 0, torn: true });
    file.truncate(end.cut().unwrap() as usize);
    end.after_cut();
    let record = log_new(b"m", 4, Metric::L2);
    file.extend_from_slice(&record);
    end.after_append(record.len(), true);
    assert_eq!(end.cut(), None);

    let recovery = Recovery::load(None, Some(&file)).unwrap();
    assert_eq!(recovery.log_end(), end);
    let registry = recovery.restore(&arith, &level).unwrap();
    let index = registry.get(b"m").unwrap();
    assert_eq!(index.dim(), 4);
    assert_eq!(index.metric(), Metric::L2);
}

#[test]
fn every_torn_log_is_cut_behind_its_whole_records() {
    let mut whole = log(&[b"alpha", b"", b"gamma"]);
    assert_eq!(intact_len(&whole), whole.len());
    assert_eq!(intact_len(b""), 0);
    let kept = whole.len();
    let torn = frame(b"delta");
    for n in 0..torn.len() {
        let mut file = whole.clone();
        file.extend_from_slice(&torn[..n]);
        assert_eq!(intact_len(&file), kept);
        file.truncate(kept);
        file.extend_from_slice(&frame(b"next"));
        assert_eq!(
            replay(&file),
            vec![b"alpha".to_vec(), b"".to_vec(), b"gamma".to_vec(), b"next".to_vec()]
        );
    }
    // A corrupt record ends what is intact, even with a whole one behind it.
    whole[8] ^= 1;
    assert_eq!(intact_len(&whole), 0);
}

#[test]
fn failed_append_is_cut_off_before_the_next() {
    let first = frame(b"first");
    let mut file = first.clone();
    let mut end = LogEnd::new(first.len(), first.len());
    assert_eq!(end.cut(), None);
    // The disk was full after three bytes.
    file.extend_from_slice(&frame(b"lost")[..3]);
    end.after_append(frame(b"lost").len(), false);
    assert_eq!(end.cut(), Some(first.len() as u64));
    file.truncate(first.len());
    end.after_cut();
    file.extend_from_slice(&frame(b"second"));
    end.after_append(frame(b"second").len(), true);
    assert_eq!(end, LogEnd { len: file.len() as u64, torn: false });
    assert_eq!(replay(&file), vec![b"first".to_vec(), b"second".to_vec()]);
    end.after_clear();
    assert_eq!(end, LogEnd { len: 0, torn: false });
}

#[test]
fn nothing_is_read_behind_the_end() {
    let mut pos: usize = 9;
    assert_eq!(codec::get_lp(b"abc", &mut pos), None);
    assert_eq!(pos, 9);
    pos = usize::MAX;
    assert_eq!(codec::get_lp(b"", &mut pos), None);
    assert_eq!(pos, usize::MAX);
    assert_eq!(codec::get_u32(b"abcd", 1), None);
    assert_eq!(codec::get_u32(b"abcd", 5), None);
    assert_eq!(codec::get_u32(&[1, 2, 0, 0], 0), Some(513));
}

#[test]
fn only_additions_that_take_effect_use_up_ids() {
    let mut bytes = Vec::new();
    bytes.extend(log_new(b"one", 1, Metric::L2));
    bytes.extend(log_new(b"two", 2, Metric::L2));
    bytes.extend(log_add(b"one", b"a", &packed(&[1.0])));
    bytes.extend(log_add(b"one", b"a", &packed(&[2.0])));
    bytes.extend(log_add(b"one", b"wide", &packed(&[1.0, 2.0])));
    bytes.extend(log_add(b"none", b"a", &packed(&[1.0])));
    bytes.extend(log_del(b"one", b"a"));
    let recovery = Recovery::load(None, Some(&bytes)).unwrap();
    let registry = recovery.restore(&arith, &level).unwrap();
    let one = registry.get(b"one").unwrap();
    assert_eq!(one.len(), 0);
    assert_eq!(one.ids_left(), CAPACITY - 2);
    assert!(!one.is_full());
    assert_eq!(registry.get(b"two").unwrap().ids_left(), CAPACITY);
    assert!(addition_has_room(&registry, b"one", &packed(&[3.0])));
    for record in replay(&bytes) {
        assert!(Op::decode(&record).unwrap().has_room(&registry));
    }
    for block in &blocks() {
        assert!(block_has_room(&registry, block));
    }
}
