//! The mutations that the log records.

use vstd::prelude::*;

use crate::codec;

verus! {

const OP_NEW: u8 = 1;

const OP_ADD: u8 = 2;

const OP_DEL: u8 = 3;

/// A logged mutation.
pub enum Op {
    New { name: Vec<u8>, dim: u32, metric: u8 },
    Add { name: Vec<u8>, key: Vec<u8>, vec: Vec<u8> },
    Del { name: Vec<u8>, key: Vec<u8> },
}

/// A mutation as what it says.
#[verifier::ext_equal]
pub enum Mutation {
    New { name: Seq<u8>, dim: u32, metric: u8 },
    Add { name: Seq<u8>, key: Seq<u8>, vec: Seq<u8> },
    Del { name: Seq<u8>, key: Seq<u8> },
}

impl Mutation {
    /// Whether every byte string is short enough for its length to be written
    /// down.
    pub open spec fn fits(self) -> bool {
        match self {
            Mutation::New { name, .. } => codec::short(name),
            Mutation::Add { name, key, vec } => {
                codec::short(name) && codec::short(key) && codec::short(vec)
            },
            Mutation::Del { name, key } => codec::short(name) && codec::short(key),
        }
    }

    /// The mutation as a record of the log.
    pub open spec fn encoded(self) -> Seq<u8> {
        match self {
            Mutation::New { name, dim, metric } => {
                seq![1u8] + codec::prefixed(name) + codec::le32(dim) + seq![metric]
            },
            Mutation::Add { name, key, vec } => {
                seq![2u8] + codec::prefixed(name) + codec::prefixed(key) + codec::prefixed(vec)
            },
            Mutation::Del { name, key } => {
                seq![3u8] + codec::prefixed(name) + codec::prefixed(key)
            },
        }
    }
}

/// The mutation that a record says, if it says one. What follows it is ignored.
pub open spec fn decoded(record: Seq<u8>) -> Option<Mutation> {
    if record.len() == 0 {
        None
    } else {
        match codec::string_at(record, 1) {
            None => None,
            Some(name) => {
                let p = 5 + name.len() as int;
                if record[0] == 1 {
                    if p + 4 < record.len() {
                        Some(
                            Mutation::New {
                                name,
                                dim: codec::number(record, p),
                                metric: record[p + 4],
                            },
                        )
                    } else {
                        None
                    }
                } else if record[0] == 2 {
                    match codec::string_at(record, p) {
                        None => None,
                        Some(key) => {
                            let q = p + 4 + key.len() as int;
                            match codec::string_at(record, q) {
                                None => None,
                                Some(vec) => Some(Mutation::Add { name, key, vec }),
                            }
                        },
                    }
                } else if record[0] == 3 {
                    match codec::string_at(record, p) {
                        None => None,
                        Some(key) => Some(Mutation::Del { name, key }),
                    }
                } else {
                    None
                }
            },
        }
    }
}

impl Op {
    /// What the mutation says.
    pub open spec fn view(&self) -> Mutation {
        match *self {
            Op::New { name, dim, metric } => Mutation::New { name: name@, dim, metric },
            Op::Add { name, key, vec } => Mutation::Add { name: name@, key: key@, vec: vec@ },
            Op::Del { name, key } => Mutation::Del { name: name@, key: key@ },
        }
    }

    /// The record of the creation of an index.
    pub fn encode_new(name: &[u8], dim: u32, metric: u8) -> (r: Vec<u8>)
        ensures
            r@ == (Mutation::New { name: name@, dim, metric }).encoded(),
    {
        let mut buf: Vec<u8> = Vec::new();
        buf.push(OP_NEW);
        codec::put_lp(&mut buf, name);
        codec::put_u32(&mut buf, dim);
        buf.push(metric);
        assert(buf@ =~= (Mutation::New { name: name@, dim, metric }).encoded());
        buf
    }

    /// The record of an inserted vector.
    pub fn encode_add(name: &[u8], key: &[u8], vec: &[u8]) -> (r: Vec<u8>)
        ensures
            r@ == (Mutation::Add { name: name@, key: key@, vec: vec@ }).encoded(),
    {
        let mut buf: Vec<u8> = Vec::new();
        buf.push(OP_ADD);
        codec::put_lp(&mut buf, name);
        codec::put_lp(&mut buf, key);
        codec::put_lp(&mut buf, vec);
        assert(buf@ =~= (Mutation::Add { name: name@, key: key@, vec: vec@ }).encoded());
        buf
    }

    /// The record of a deletion.
    pub fn encode_del(name: &[u8], key: &[u8]) -> (r: Vec<u8>)
        ensures
            r@ == (Mutation::Del { name: name@, key: key@ }).encoded(),
    {
        let mut buf: Vec<u8> = Vec::new();
        buf.push(OP_DEL);
        codec::put_lp(&mut buf, name);
        codec::put_lp(&mut buf, key);
        assert(buf@ =~= (Mutation::Del { name: name@, key: key@ }).encoded());
        buf
    }

    /// Reads a record.
    pub fn decode(record: &[u8]) -> (r: Option<Op>)
        ensures
            match r {
                Some(op) => decoded(record@) == Some(op@),
                None => decoded(record@) is None,
            },
    {
        if record.len() == 0 {
            return None;
        }
        let opcode: u8 = record[0];
        let mut pos: usize = 1;
        let name = match codec::get_lp(record, &mut pos) {
            Some(name) => codec::copied(name),
            None => return None,
        };
        if opcode == OP_NEW {
            let dim: u32 = match codec::get_u32(record, pos) {
                Some(dim) => dim,
                None => return None,
            };
            if record.len() - pos < 5 {
                return None;
            }
            Some(Op::New { name, dim, metric: record[pos + 4] })
        } else if opcode == OP_ADD {
            let key = match codec::get_lp(record, &mut pos) {
                Some(key) => codec::copied(key),
                None => return None,
            };
            let vec = match codec::get_lp(record, &mut pos) {
                Some(vec) => codec::copied(vec),
                None => return None,
            };
            Some(Op::Add { name, key, vec })
        } else if opcode == OP_DEL {
            let key = match codec::get_lp(record, &mut pos) {
                Some(key) => codec::copied(key),
                None => return None,
            };
            Some(Op::Del { name, key })
        } else {
            None
        }
    }
}

/// Whatever follows it, a mutation stands at the start of a record, and is short
/// enough to be written down, just if the record says that mutation.
pub proof fn law_records_round_trip(record: Seq<u8>, op: Mutation)
    ensures
        op.fits() && codec::stands_at(record, 0, op.encoded()) <==> decoded(record) == Some(op),
{
    match op {
        Mutation::New { name, dim, metric } => {
            let a = seq![1u8];
            let b = codec::prefixed(name);
            let c = codec::le32(dim);
            codec::lemma_stands_both(record, 0, a + b + c, seq![metric]);
            codec::lemma_stands_both(record, 0, a + b, c);
            codec::lemma_stands_both(record, 0, a, b);
            codec::lemma_byte_stands(record, 0, 1);
            codec::law_strings_round_trip(record, 1, name);
            codec::law_numbers_round_trip(record, 5 + name.len() as int, dim);
            codec::lemma_byte_stands(record, 9 + name.len() as int, metric);
        },
        Mutation::Add { name, key, vec } => {
            let a = seq![2u8];
            let b = codec::prefixed(name);
            let c = codec::prefixed(key);
            codec::lemma_stands_both(record, 0, a + b + c, codec::prefixed(vec));
            codec::lemma_stands_both(record, 0, a + b, c);
            codec::lemma_stands_both(record, 0, a, b);
            codec::lemma_byte_stands(record, 0, 2);
            codec::law_strings_round_trip(record, 1, name);
            codec::law_strings_round_trip(record, 5 + name.len() as int, key);
            codec::law_strings_round_trip(record, 9 + name.len() as int + key.len() as int, vec);
        },
        Mutation::Del { name, key } => {
            let a = seq![3u8];
            let b = codec::prefixed(name);
            codec::lemma_stands_both(record, 0, a + b, codec::prefixed(key));
            codec::lemma_stands_both(record, 0, a, b);
            codec::lemma_byte_stands(record, 0, 3);
            codec::law_strings_round_trip(record, 1, name);
            codec::law_strings_round_trip(record, 5 + name.len() as int, key);
        },
    }
}

/// A record that was cut short says nothing.
pub proof fn law_truncated_record_is_rejected(op: Mutation, n: int)
    requires
        op.fits(),
        0 <= n < op.encoded().len(),
    ensures
        decoded(op.encoded().take(n)) is None,
{
    let whole = op.encoded();
    let cut = whole.take(n);
    if decoded(cut) is Some {
        let other = decoded(cut)->0;
        law_records_round_trip(cut, other);
        codec::lemma_stands_before_cut(whole, n, other.encoded());
        law_records_round_trip(whole, other);
        codec::lemma_stands_whole(whole);
        law_records_round_trip(whole, op);
    }
}

/// A record is one byte for its kind and then its parts, byte strings behind their
/// length.
pub proof fn law_record_is_kind_and_parts(name: Seq<u8>, key: Seq<u8>, vec: Seq<u8>, dim: u32, tag: u8)
    ensures
        (Mutation::New { name, dim, metric: tag }).encoded() == seq![1u8] + codec::prefixed(name)
            + codec::le32(dim) + seq![tag],
        (Mutation::Add { name, key, vec }).encoded() == seq![2u8] + codec::prefixed(name)
            + codec::prefixed(key) + codec::prefixed(vec),
        (Mutation::Del { name, key }).encoded() == seq![3u8] + codec::prefixed(name)
            + codec::prefixed(key),
{
}

} // verus!
