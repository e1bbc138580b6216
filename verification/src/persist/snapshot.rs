//! A point-in-time snapshot of every index.
//!
//! The snapshot is the compaction target for the write-ahead log: it holds only
//! live entries, so tombstones from deletes and overwrites are dropped when it
//! is written.
//!
//! Layout (all integers little-endian):
//! ```text
//! magic "EGSNAPv1" | nblocks u32
//! per block: name(lp) | dim u32 | metric u8 | count u32
//!            count * ( key(lp) | vector(lp) )      // vector = packed numbers
//! ```
//! where `lp` is a `u32` length followed by that many bytes.

use vstd::prelude::*;

use crate::codec;

verus! {

/// One index's worth of snapshot data.
pub struct SnapBlock {
    pub name: Vec<u8>,
    pub dim: u32,
    pub metric: u8,
    /// Live `(key, packed vector bytes)` pairs.
    pub entries: Vec<(Vec<u8>, Vec<u8>)>,
}

/// A block as what it says.
#[verifier::ext_equal]
pub struct Block {
    pub name: Seq<u8>,
    pub dim: u32,
    pub metric: u8,
    pub entries: Seq<(Seq<u8>, Seq<u8>)>,
}

/// Why a snapshot could not be read.
#[derive(Clone, Copy, Debug, PartialEq, Eq, Structural)]
pub enum SnapshotError {
    /// The file exists but is no snapshot.
    Corrupt,
}

/// The entries of a block as what they say.
pub open spec fn entry_views(entries: Seq<(Vec<u8>, Vec<u8>)>) -> Seq<(Seq<u8>, Seq<u8>)> {
    entries.map_values(|e: (Vec<u8>, Vec<u8>)| (e.0@, e.1@))
}

impl SnapBlock {
    /// What the block says.
    pub open spec fn view(&self) -> Block {
        Block {
            name: self.name@,
            dim: self.dim,
            metric: self.metric,
            entries: entry_views(self.entries@),
        }
    }
}

/// Blocks as what they say.
pub open spec fn block_views(blocks: Seq<SnapBlock>) -> Seq<Block> {
    blocks.map_values(|b: SnapBlock| b@)
}

/// The bytes that a snapshot starts with: "EGSNAPv1".
pub open spec fn magic() -> Seq<u8> {
    seq![0x45u8, 0x47u8, 0x53u8, 0x4Eu8, 0x41u8, 0x50u8, 0x76u8, 0x31u8]
}

/// A count as far as 32 bits hold it.
pub open spec fn count32(n: nat) -> u32 {
    (n % 0x1_0000_0000) as u32
}

/// Entries as they stand in the file.
pub open spec fn entries_layout(entries: Seq<(Seq<u8>, Seq<u8>)>) -> Seq<u8>
    decreases entries.len(),
{
    if entries.len() == 0 {
        seq![]
    } else {
        entries_layout(entries.drop_last()) + codec::prefixed(entries.last().0) + codec::prefixed(
            entries.last().1,
        )
    }
}

/// A block as it stands in the file.
pub open spec fn block_layout(b: Block) -> Seq<u8> {
    codec::prefixed(b.name) + codec::le32(b.dim) + seq![b.metric] + codec::le32(
        count32(b.entries.len()),
    ) + entries_layout(b.entries)
}

/// Blocks as they stand in the file.
pub open spec fn blocks_layout(blocks: Seq<Block>) -> Seq<u8>
    decreases blocks.len(),
{
    if blocks.len() == 0 {
        seq![]
    } else {
        blocks_layout(blocks.drop_last()) + block_layout(blocks.last())
    }
}

/// A snapshot as a file.
pub open spec fn layout(blocks: Seq<Block>) -> Seq<u8> {
    magic() + codec::le32(count32(blocks.len())) + blocks_layout(blocks)
}

/// The `n` entries from `pos` on and where they end, if they are all there.
pub open spec fn entries_at(data: Seq<u8>, pos: int, n: nat) -> Option<
    (Seq<(Seq<u8>, Seq<u8>)>, int),
>
    decreases n,
{
    if n == 0 {
        Some((seq![], pos))
    } else {
        match entries_at(data, pos, (n - 1) as nat) {
            None => None,
            Some((before, p)) => match codec::string_at(data, p) {
                None => None,
                Some(key) => {
                    let q = p + 4 + key.len();
                    match codec::string_at(data, q) {
                        None => None,
                        Some(vec) => Some((before.push((key, vec)), q + 4 + vec.len())),
                    }
                },
            },
        }
    }
}

/// The block at `pos` and where it ends, if it is all there.
pub open spec fn block_at(data: Seq<u8>, pos: int) -> Option<(Block, int)> {
    match codec::string_at(data, pos) {
        None => None,
        Some(name) => {
            let p = pos + 4 + name.len();
            if p + 9 > data.len() {
                None
            } else {
                match entries_at(data, p + 9, codec::number(data, p + 5) as nat) {
                    None => None,
                    Some((entries, end)) => Some(
                        (
                            Block {
                                name,
                                dim: codec::number(data, p),
                                metric: data[p + 4],
                                entries,
                            },
                            end,
                        ),
                    ),
                }
            }
        },
    }
}

/// The `n` blocks from `pos` on and where they end, if they are all there.
pub open spec fn blocks_at(data: Seq<u8>, pos: int, n: nat) -> Option<(Seq<Block>, int)>
    decreases n,
{
    if n == 0 {
        Some((seq![], pos))
    } else {
        match blocks_at(data, pos, (n - 1) as nat) {
            None => None,
            Some((before, p)) => match block_at(data, p) {
                None => None,
                Some((b, end)) => Some((before.push(b), end)),
            },
        }
    }
}

/// The blocks of a snapshot file, if it is one. What follows them is ignored.
pub open spec fn parsed(data: Seq<u8>) -> Option<Seq<Block>> {
    if data.len() < 12 || data.take(8) != magic() {
        None
    } else {
        match blocks_at(data, 12, codec::number(data, 8) as nat) {
            None => None,
            Some((blocks, _)) => Some(blocks),
        }
    }
}

/// The bytes of the snapshot file that holds `blocks`.
pub fn write(blocks: &[SnapBlock]) -> (buf: Vec<u8>)
    ensures
        buf@ == layout(block_views(blocks@)),
{
    let ghost views = block_views(blocks@);
    let mut buf: Vec<u8> = Vec::new();
    put_magic(&mut buf);
    codec::put_u32(&mut buf, codec::short_len(blocks.len()));
    let ghost head = buf@;
    assert(head =~= magic() + codec::le32(count32(views.len())));
    let mut i: usize = 0;
    assert(blocks_layout(views.take(0)) =~= seq![]);
    while i < blocks.len()
        invariant
            i <= blocks.len(),
            views == block_views(blocks@),
            buf@ == head + blocks_layout(views.take(i as int)),
        decreases blocks.len() - i,
    {
        put_block(&mut buf, &blocks[i]);
        proof {
            let part = views.take(i + 1);
            assert(part.drop_last() =~= views.take(i as int));
            assert(part.last() == views[i as int]);
            assert(buf@ =~= head + blocks_layout(part));
        }
        i += 1;
    }
    assert(views.take(i as int) =~= views);
    buf
}

fn put_magic(buf: &mut Vec<u8>)
    ensures
        final(buf)@ == old(buf)@ + magic(),
{
    buf.push(0x45);
    buf.push(0x47);
    buf.push(0x53);
    buf.push(0x4E);
    buf.push(0x41);
    buf.push(0x50);
    buf.push(0x76);
    buf.push(0x31);
    assert(buf@ =~= old(buf)@ + magic());
}

/// Appends one block.
fn put_block(buf: &mut Vec<u8>, b: &SnapBlock)
    ensures
        final(buf)@ == old(buf)@ + block_layout(b@),
{
    codec::put_lp(buf, b.name.as_slice());
    codec::put_u32(buf, b.dim);
    buf.push(b.metric);
    codec::put_u32(buf, codec::short_len(b.entries.len()));
    let ghost head = buf@;
    let ghost views = entry_views(b.entries@);
    let mut i: usize = 0;
    assert(entries_layout(views.take(0)) =~= seq![]);
    while i < b.entries.len()
        invariant
            i <= b.entries.len(),
            views == entry_views(b.entries@),
            buf@ == head + entries_layout(views.take(i as int)),
        decreases b.entries.len() - i,
    {
        let e = &b.entries[i];
        codec::put_lp(buf, e.0.as_slice());
        codec::put_lp(buf, e.1.as_slice());
        proof {
            let part = views.take(i + 1);
            assert(part.drop_last() =~= views.take(i as int));
            assert(part.last() == views[i as int]);
            assert(buf@ =~= head + entries_layout(part));
        }
        i += 1;
    }
    assert(views.take(i as int) =~= views);
    assert(buf@ =~= old(buf)@ + block_layout(b@));
}

/// A bounds-checked forward reader over a byte slice.
pub struct Reader<'a> {
    data: &'a [u8],
    pos: usize,
}

impl<'a> Reader<'a> {
    /// The bytes.
    pub closed spec fn data(&self) -> Seq<u8> {
        self.data@
    }

    /// How many of them have been read.
    pub closed spec fn pos(&self) -> int {
        self.pos as int
    }

    /// The reader has not run past the end.
    pub open spec fn wf(&self) -> bool {
        0 <= self.pos() <= self.data().len()
    }

    /// A reader that has read the first `pos` bytes of `data`.
    pub fn new(data: &'a [u8], pos: usize) -> (r: Reader<'a>)
        requires
            pos <= data@.len(),
        ensures
            r.wf(),
            r.data() == data@,
            r.pos() == pos,
    {
        Reader { data, pos }
    }

    /// Reads a number.
    pub fn u32(&mut self) -> (r: Option<u32>)
        requires
            old(self).wf(),
        ensures
            final(self).wf(),
            final(self).data() == old(self).data(),
            r == codec::number_at(old(self).data(), old(self).pos()),
            final(self).pos() == old(self).pos() + if r is Some {
                4int
            } else {
                0
            },
    {
        let r = codec::get_u32(self.data, self.pos);
        assert(self.data@.len() == self.data.len());
        if r.is_some() {
            self.pos = self.pos + 4;
        }
        r
    }

    /// Reads a byte.
    pub fn u8(&mut self) -> (r: Option<u8>)
        requires
            old(self).wf(),
        ensures
            final(self).wf(),
            final(self).data() == old(self).data(),
            match r {
                Some(b) => {
                    &&& old(self).pos() < old(self).data().len()
                    &&& b == old(self).data()[old(self).pos()]
                    &&& final(self).pos() == old(self).pos() + 1
                },
                None => {
                    &&& old(self).pos() == old(self).data().len()
                    &&& final(self).pos() == old(self).pos()
                },
            },
    {
        if self.pos < self.data.len() {
            let b: u8 = self.data[self.pos];
            self.pos = self.pos + 1;
            Some(b)
        } else {
            None
        }
    }

    /// Reads a length-prefixed slice.
    pub fn lp(&mut self) -> (r: Option<&'a [u8]>)
        requires
            old(self).wf(),
        ensures
            final(self).wf(),
            final(self).data() == old(self).data(),
            match r {
                Some(s) => {
                    &&& codec::string_at(old(self).data(), old(self).pos()) == Some(s@)
                    &&& final(self).pos() == old(self).pos() + 4 + s@.len()
                },
                None => {
                    &&& codec::string_at(old(self).data(), old(self).pos()) is None
                    &&& final(self).pos() == old(self).pos()
                },
            },
    {
        let mut pos: usize = self.pos;
        let r = codec::get_lp(self.data, &mut pos);
        self.pos = pos;
        r
    }
}

/// Whether the bytes start with the magic.
fn has_magic(bytes: &[u8]) -> (r: bool)
    requires
        bytes@.len() >= 8,
    ensures
        r == (bytes@.take(8) == magic()),
{
    let r = bytes[0] == 0x45 && bytes[1] == 0x47 && bytes[2] == 0x53 && bytes[3] == 0x4E && bytes[4]
        == 0x41 && bytes[5] == 0x50 && bytes[6] == 0x76 && bytes[7] == 0x31;
    proof {
        let head = bytes@.take(8);
        let m = magic();
        assert(head.len() == 8 && m.len() == 8);
        if r {
            assert(head =~= m);
        } else {
            assert(head[0] != m[0] || head[1] != m[1] || head[2] != m[2] || head[3] != m[3]
                || head[4] != m[4] || head[5] != m[5] || head[6] != m[6] || head[7] != m[7]);
        }
    }
    r
}

/// Reads one block.
fn get_block(r: &mut Reader<'_>) -> (out: Option<SnapBlock>)
    requires
        old(r).wf(),
    ensures
        final(r).data() == old(r).data(),
        match out {
            Some(b) => {
                &&& final(r).wf()
                &&& block_at(old(r).data(), old(r).pos()) == Some((b@, final(r).pos()))
            },
            None => block_at(old(r).data(), old(r).pos()) is None,
        },
{
    let ghost data = r.data();
    let name = match r.lp() {
        Some(name) => codec::copied(name),
        None => return None,
    };
    let dim: u32 = match r.u32() {
        Some(dim) => dim,
        None => return None,
    };
    let metric: u8 = match r.u8() {
        Some(metric) => metric,
        None => return None,
    };
    let count: u32 = match r.u32() {
        Some(count) => count,
        None => return None,
    };
    let ghost start = r.pos();
    let mut entries: Vec<(Vec<u8>, Vec<u8>)> = Vec::new();
    let mut i: u32 = 0;
    assert(entry_views(entries@) =~= seq![]);
    while i < count
        invariant
            i <= count,
            r.wf(),
            r.data() == data,
            entries_at(data, start, i as nat) == Some((entry_views(entries@), r.pos())),
            block_at(data, old(r).pos()) is Some ==> entries_at(data, start, count as nat) is Some,
            data == old(r).data(),
        decreases count - i,
    {
        let ghost at = r.pos();
        let ghost before = entry_views(entries@);
        proof {
            if entries_at(data, start, count as nat) is Some {
                lemma_entries_shorter(data, start, count as nat, (i + 1) as nat);
            }
        }
        let key = match r.lp() {
            Some(key) => codec::copied(key),
            None => return None,
        };
        let vec = match r.lp() {
            Some(vec) => codec::copied(vec),
            None => return None,
        };
        entries.push((key, vec));
        assert(entry_views(entries@) =~= before.push((key@, vec@)));
        i += 1;
    }
    Some(SnapBlock { name, dim, metric, entries })
}

proof fn lemma_entries_shorter(data: Seq<u8>, pos: int, n: nat, m: nat)
    requires
        m <= n,
        entries_at(data, pos, n) is Some,
    ensures
        entries_at(data, pos, m) is Some,
    decreases n,
{
    if m < n {
        lemma_entries_shorter(data, pos, (n - 1) as nat, m);
    }
}

proof fn lemma_blocks_shorter(data: Seq<u8>, pos: int, n: nat, m: nat)
    requires
        m <= n,
        blocks_at(data, pos, n) is Some,
    ensures
        blocks_at(data, pos, m) is Some,
    decreases n,
{
    if m < n {
        lemma_blocks_shorter(data, pos, (n - 1) as nat, m);
    }
}

/// Parses the snapshot bytes into blocks, or `None` if it is malformed.
pub fn parse(bytes: &[u8]) -> (out: Option<Vec<SnapBlock>>)
    ensures
        match out {
            Some(blocks) => parsed(bytes@) == Some(block_views(blocks@)),
            None => parsed(bytes@) is None,
        },
{
    if bytes.len() < 12 || !has_magic(bytes) {
        return None;
    }
    let ghost data = bytes@;
    let mut r = Reader::new(bytes, 8);
    let nblocks: u32 = match r.u32() {
        Some(n) => n,
        None => return None,
    };
    let mut blocks: Vec<SnapBlock> = Vec::new();
    let mut i: u32 = 0;
    assert(block_views(blocks@) =~= seq![]);
    while i < nblocks
        invariant
            i <= nblocks,
            r.wf(),
            r.data() == data,
            data == bytes@,
            data.len() >= 12,
            data.take(8) == magic(),
            nblocks == codec::number(data, 8),
            blocks_at(data, 12, i as nat) == Some((block_views(blocks@), r.pos())),
        decreases nblocks - i,
    {
        let ghost before = block_views(blocks@);
        proof {
            if blocks_at(data, 12, nblocks as nat) is Some {
                lemma_blocks_shorter(data, 12, nblocks as nat, (i + 1) as nat);
            }
        }
        let b = match get_block(&mut r) {
            Some(b) => b,
            None => return None,
        };
        blocks.push(b);
        assert(block_views(blocks@) =~= before.push(b@));
        i += 1;
    }
    Some(blocks)
}

/// The blocks of a snapshot file, given its bytes if it exists. There are none if
/// the file is absent, and it is an error if it exists but is corrupt.
pub fn read(file: Option<&[u8]>) -> (r: Result<Vec<SnapBlock>, SnapshotError>)
    ensures
        match (file, r) {
            (None, Ok(blocks)) => blocks@.len() == 0,
            (Some(bytes), Ok(blocks)) => parsed(bytes@) == Some(block_views(blocks@)),
            (Some(bytes), Err(e)) => parsed(bytes@) is None && e == SnapshotError::Corrupt,
            (None, Err(_)) => false,
        },
{
    match file {
        None => Ok(Vec::new()),
        Some(bytes) => match parse(bytes) {
            Some(blocks) => Ok(blocks),
            None => Err(SnapshotError::Corrupt),
        },
    }
}

/// Whether every length and count of a block can be written down.
pub open spec fn block_fits(b: Block) -> bool {
    &&& codec::short(b.name)
    &&& b.entries.len() < codec::RANGE
    &&& forall|i: int|
        0 <= i < b.entries.len() ==> codec::short((#[trigger] b.entries[i]).0) && codec::short(
            b.entries[i].1,
        )
}

/// Whether every length and count of a snapshot can be written down.
pub open spec fn fits(blocks: Seq<Block>) -> bool {
    &&& blocks.len() < codec::RANGE
    &&& forall|i: int| 0 <= i < blocks.len() ==> block_fits(#[trigger] blocks[i])
}

spec fn entries_fit(entries: Seq<(Seq<u8>, Seq<u8>)>) -> bool {
    forall|i: int|
        0 <= i < entries.len() ==> codec::short((#[trigger] entries[i]).0) && codec::short(
            entries[i].1,
        )
}

/// Entries that stand at `pos` are read there.
proof fn lemma_entries_read(data: Seq<u8>, pos: int, entries: Seq<(Seq<u8>, Seq<u8>)>)
    requires
        entries_fit(entries),
        codec::stands_at(data, pos, entries_layout(entries)),
    ensures
        entries_at(data, pos, entries.len()) == Some(
            (entries, pos + entries_layout(entries).len() as int),
        ),
    decreases entries.len(),
{
    let n = entries.len();
    codec::lemma_stands_within(data, pos, entries_layout(entries));
    if n == 0 {
        assert(entries =~= seq![]);
    } else {
        let some = entries.drop_last();
        let (key, vec) = entries.last();
        let before = entries_layout(some);
        let p = pos + before.len() as int;
        codec::lemma_stands_both(data, pos, before + codec::prefixed(key), codec::prefixed(vec));
        codec::lemma_stands_both(data, pos, before, codec::prefixed(key));
        assert forall|i: int| 0 <= i < n - 1 implies codec::short((#[trigger] some[i]).0)
            && codec::short(some[i].1) by {
            assert(some[i] == entries[i]);
        }
        assert(codec::short(key) && codec::short(vec)) by {
            assert(entries[n - 1] == (key, vec));
        }
        lemma_entries_read(data, pos, some);
        codec::law_strings_round_trip(data, p, key);
        codec::law_strings_round_trip(data, p + 4 + key.len(), vec);
        assert(entries =~= some.push((key, vec)));
    }
}

/// Entries stand where they are read.
proof fn lemma_entries_written(data: Seq<u8>, pos: int, n: nat)
    requires
        0 <= pos <= data.len(),
        entries_at(data, pos, n) is Some,
    ensures
        ({
            let (entries, end) = entries_at(data, pos, n)->0;
            &&& entries.len() == n
            &&& end == pos + entries_layout(entries).len()
            &&& entries_fit(entries)
            &&& codec::stands_at(data, pos, entries_layout(entries))
        }),
    decreases n,
{
    let (entries, end) = entries_at(data, pos, n)->0;
    if n == 0 {
        codec::lemma_stands_empty(data, pos);
    } else {
        lemma_entries_written(data, pos, (n - 1) as nat);
        let (before, p) = entries_at(data, pos, (n - 1) as nat)->0;
        let key = codec::string_at(data, p)->0;
        let q = p + 4 + key.len();
        let vec = codec::string_at(data, q)->0;
        codec::lemma_string_read(data, p);
        codec::lemma_string_read(data, q);
        let a = codec::prefixed(key);
        let b = codec::prefixed(vec);
        codec::lemma_stands_both(data, pos, entries_layout(before), a);
        codec::lemma_stands_both(data, pos, entries_layout(before) + a, b);
        assert(entries.drop_last() =~= before);
        assert(entries.last() == (key, vec));
        assert forall|i: int| 0 <= i < n implies codec::short((#[trigger] entries[i]).0)
            && codec::short(entries[i].1) by {
            if i < n - 1 {
                assert(entries[i] == before[i]);
            }
        }
    }
}

/// What a block starts with: all but its entries.
spec fn head_layout(b: Block) -> Seq<u8> {
    codec::prefixed(b.name) + codec::le32(b.dim) + seq![b.metric] + codec::le32(
        count32(b.entries.len()),
    )
}

/// Whether the start of a block is read at `pos`.
#[verifier::opaque]
spec fn head_read(data: Seq<u8>, pos: int, b: Block) -> bool {
    let p = pos + 4 + b.name.len();
    &&& codec::string_at(data, pos) == Some(b.name)
    &&& p + 9 <= data.len()
    &&& codec::number(data, p) == b.dim
    &&& data[p + 4] == b.metric
    &&& codec::number(data, p + 5) == count32(b.entries.len())
}

/// The start of a block stands at `pos` just if it is read there.
proof fn lemma_head(data: Seq<u8>, pos: int, b: Block)
    requires
        0 <= pos <= data.len(),
    ensures
        head_layout(b).len() == b.name.len() + 13,
        codec::short(b.name) && codec::stands_at(data, pos, head_layout(b)) <==> head_read(
            data,
            pos,
            b,
        ),
{
    reveal(head_read);
    let name = codec::prefixed(b.name);
    let dim = codec::le32(b.dim);
    let metric = seq![b.metric];
    let count = codec::le32(count32(b.entries.len()));
    let p = pos + 4 + b.name.len();
    codec::lemma_stands_both(data, pos, name + dim + metric, count);
    codec::lemma_stands_both(data, pos, name + dim, metric);
    codec::lemma_stands_both(data, pos, name, dim);
    assert(name.len() == 4 + b.name.len());
    assert(dim.len() == 4);
    assert(count.len() == 4);
    codec::law_strings_round_trip(data, pos, b.name);
    codec::law_numbers_round_trip(data, p, b.dim);
    codec::lemma_byte_stands(data, p + 4, b.metric);
    codec::law_numbers_round_trip(data, p + 5, count32(b.entries.len()));
}

/// A block is read where its start and its entries are.
proof fn lemma_block_put_together(data: Seq<u8>, pos: int, b: Block, end: int)
    requires
        b.entries.len() < codec::RANGE,
        head_read(data, pos, b),
        entries_at(data, pos + 13 + b.name.len(), b.entries.len()) == Some((b.entries, end)),
    ensures
        block_at(data, pos) == Some((b, end)),
{
    reveal(head_read);
}

/// A block that stands at `pos` is read there.
proof fn lemma_block_read(data: Seq<u8>, pos: int, b: Block)
    requires
        0 <= pos <= data.len(),
        block_fits(b),
        codec::stands_at(data, pos, block_layout(b)),
    ensures
        block_at(data, pos) == Some((b, pos + block_layout(b).len() as int)),
{
    let entries = entries_layout(b.entries);
    codec::lemma_stands_both(data, pos, head_layout(b), entries);
    lemma_head(data, pos, b);
    lemma_entries_read(data, pos + 13 + b.name.len(), b.entries);
    lemma_block_put_together(data, pos, b, pos + block_layout(b).len() as int);
}

/// A block stands where it is read.
proof fn lemma_block_written(data: Seq<u8>, pos: int)
    requires
        0 <= pos <= data.len(),
        block_at(data, pos) is Some,
    ensures
        ({
            let (b, end) = block_at(data, pos)->0;
            &&& end == pos + block_layout(b).len()
            &&& block_fits(b)
            &&& codec::stands_at(data, pos, block_layout(b))
        }),
{
    let (b, end) = block_at(data, pos)->0;
    let p = pos + 4 + b.name.len();
    let n = codec::number(data, p + 5);
    codec::lemma_string_read(data, pos);
    lemma_entries_written(data, p + 9, n as nat);
    lemma_counted(n, b.entries.len());
    assert(head_read(data, pos, b)) by {
        reveal(head_read);
    }
    lemma_head(data, pos, b);
    codec::lemma_stands_both(data, pos, head_layout(b), entries_layout(b.entries));
}

spec fn blocks_fit(blocks: Seq<Block>) -> bool {
    forall|i: int| 0 <= i < blocks.len() ==> block_fits(#[trigger] blocks[i])
}

/// Blocks that stand at `pos` are read there.
proof fn lemma_blocks_read(data: Seq<u8>, pos: int, blocks: Seq<Block>)
    requires
        blocks_fit(blocks),
        codec::stands_at(data, pos, blocks_layout(blocks)),
    ensures
        blocks_at(data, pos, blocks.len()) == Some(
            (blocks, pos + blocks_layout(blocks).len() as int),
        ),
    decreases blocks.len(),
{
    let n = blocks.len();
    codec::lemma_stands_within(data, pos, blocks_layout(blocks));
    if n == 0 {
        assert(blocks =~= seq![]);
    } else {
        let some = blocks.drop_last();
        let b = blocks.last();
        codec::lemma_stands_both(data, pos, blocks_layout(some), block_layout(b));
        assert forall|i: int| 0 <= i < n - 1 implies block_fits(#[trigger] some[i]) by {
            assert(some[i] == blocks[i]);
        }
        assert(block_fits(b)) by {
            assert(blocks[n - 1] == b);
        }
        lemma_blocks_read(data, pos, some);
        lemma_block_read(data, pos + blocks_layout(some).len() as int, b);
        assert(blocks =~= some.push(b));
    }
}

/// Blocks stand where they are read.
proof fn lemma_blocks_written(data: Seq<u8>, pos: int, n: nat)
    requires
        0 <= pos <= data.len(),
        blocks_at(data, pos, n) is Some,
    ensures
        ({
            let (blocks, end) = blocks_at(data, pos, n)->0;
            &&& blocks.len() == n
            &&& end == pos + blocks_layout(blocks).len()
            &&& blocks_fit(blocks)
            &&& codec::stands_at(data, pos, blocks_layout(blocks))
        }),
    decreases n,
{
    let (blocks, end) = blocks_at(data, pos, n)->0;
    if n == 0 {
        codec::lemma_stands_empty(data, pos);
    } else {
        lemma_blocks_written(data, pos, (n - 1) as nat);
        let (before, p) = blocks_at(data, pos, (n - 1) as nat)->0;
        let (b, _) = block_at(data, p)->0;
        codec::lemma_stands_within(data, pos, blocks_layout(before));
        lemma_block_written(data, p);
        codec::lemma_stands_both(data, pos, blocks_layout(before), block_layout(b));
        assert(blocks.drop_last() =~= before);
        assert(blocks.last() == b);
        assert forall|i: int| 0 <= i < n implies block_fits(#[trigger] blocks[i]) by {
            if i < n - 1 {
                assert(blocks[i] == before[i]);
            }
        }
    }
}

/// Whatever follows it, a snapshot stands at the start of a file, and can be
/// written down, just if the file reads as that snapshot.
pub proof fn law_snapshots_round_trip(data: Seq<u8>, blocks: Seq<Block>)
    ensures
        fits(blocks) && codec::stands_at(data, 0, layout(blocks)) <==> parsed(data) == Some(blocks),
{
    let start = magic() + codec::le32(count32(blocks.len()));
    if fits(blocks) && codec::stands_at(data, 0, layout(blocks)) {
        codec::lemma_stands_both(data, 0, start, blocks_layout(blocks));
        lemma_start(data, count32(blocks.len()));
        lemma_blocks_read(data, 12, blocks);
        lemma_snapshot_put_together(data, blocks, 12 + blocks_layout(blocks).len() as int);
    }
    if parsed(data) == Some(blocks) {
        lemma_snapshot_taken_apart(data, blocks);
        lemma_start(data, count32(blocks.len()));
        codec::lemma_stands_both(data, 0, start, blocks_layout(blocks));
    }
}

/// Whether a snapshot file starts as one of `n` blocks does.
#[verifier::opaque]
spec fn start_read(data: Seq<u8>, n: u32) -> bool {
    data.len() >= 12 && data.take(8) == magic() && codec::number(data, 8) == n
}

/// A file that starts as a snapshot and holds its blocks is that snapshot.
proof fn lemma_snapshot_put_together(data: Seq<u8>, blocks: Seq<Block>, end: int)
    requires
        blocks.len() < codec::RANGE,
        start_read(data, count32(blocks.len())),
        blocks_at(data, 12, blocks.len()) == Some((blocks, end)),
    ensures
        parsed(data) == Some(blocks),
{
    reveal(start_read);
}

/// A snapshot starts as one and holds its blocks.
proof fn lemma_snapshot_taken_apart(data: Seq<u8>, blocks: Seq<Block>)
    requires
        parsed(data) == Some(blocks),
    ensures
        fits(blocks),
        start_read(data, count32(blocks.len())),
        codec::stands_at(data, 12, blocks_layout(blocks)),
{
    let n = codec::number(data, 8);
    assert(blocks_at(data, 12, n as nat) is Some);
    lemma_blocks_written(data, 12, n as nat);
    let (read, end) = blocks_at(data, 12, n as nat)->0;
    assert(read == blocks);
    assert(start_read(data, n)) by {
        reveal(start_read);
    }
    lemma_counted(n, blocks.len());
}

/// A count that 32 bits hold is written down as it is.
proof fn lemma_counted(n: u32, len: nat)
    requires
        len == n,
    ensures
        count32(len) == n,
        len < codec::RANGE,
{
}

/// What a snapshot file starts with stands there just if it is read there.
proof fn lemma_start(data: Seq<u8>, n: u32)
    ensures
        (magic() + codec::le32(n)).len() == 12,
        codec::stands_at(data, 0, magic() + codec::le32(n)) <==> start_read(data, n),
{
    reveal(start_read);
    codec::lemma_stands_both(data, 0, magic(), codec::le32(n));
    codec::law_numbers_round_trip(data, 8, n);
    reveal(codec::stands_at);
    assert(magic().len() == 8 && codec::le32(n).len() == 4);
    assert(data.len() >= 8 ==> data.take(8) =~= data.subrange(0, 8));
}

/// A snapshot file that was cut short is recognised as corrupt.
pub proof fn law_truncated_snapshot_is_rejected(blocks: Seq<Block>, n: int)
    requires
        fits(blocks),
        0 <= n < layout(blocks).len(),
    ensures
        parsed(layout(blocks).take(n)) is None,
{
    let whole = layout(blocks);
    let cut = whole.take(n);
    if parsed(cut) is Some {
        let other = parsed(cut)->0;
        law_snapshots_round_trip(cut, other);
        codec::lemma_stands_before_cut(whole, n, layout(other));
        law_snapshots_round_trip(whole, other);
        codec::lemma_stands_whole(whole);
        law_snapshots_round_trip(whole, blocks);
    }
}

/// A snapshot of nothing is the magic bytes and a count of zero.
pub proof fn law_empty_snapshot_is_magic_and_zero()
    ensures
        layout(seq![]) == seq![
            0x45u8,
            0x47u8,
            0x53u8,
            0x4Eu8,
            0x41u8,
            0x50u8,
            0x76u8,
            0x31u8,
            0u8,
            0u8,
            0u8,
            0u8,
        ],
{
    assert(blocks_layout(seq![]) =~= seq![]);
    let zero = codec::le32(count32(0));
    assert(zero[0] == 0 && zero[1] == 0 && zero[2] == 0 && zero[3] == 0);
    assert(layout(seq![]) =~= magic() + zero);
}

proof fn lemma_parts_of_layout(start: Seq<u8>, count: Seq<u8>, body: Seq<u8>)
    requires
        start.len() == 8,
        count.len() == 4,
    ensures
        (start + count + body).take(8) == start,
        (start + count + body).subrange(8, 12) == count,
        (start + count + body).skip(12) == body,
{
    let all = start + count + body;
    assert(all.take(8) =~= start);
    assert(all.subrange(8, 12) =~= count);
    assert(all.skip(12) =~= body);
}

/// A block is its name, its dimension, its metric, how many entries it has, and the
/// entries.
pub proof fn law_block_is_its_parts(b: Block)
    requires
        block_fits(b),
    ensures
        block_layout(b) == codec::prefixed(b.name) + codec::le32(b.dim) + seq![b.metric]
            + codec::le32(b.entries.len() as u32) + entries_layout(b.entries),
{
    assert(count32(b.entries.len()) == b.entries.len() as u32);
}

/// One more block changes the count of a snapshot and adds its bytes at the end.
pub proof fn law_snapshot_grows_block_by_block(blocks: Seq<Block>, b: Block)
    requires
        blocks.len() + 1 < codec::RANGE,
    ensures
        layout(blocks.push(b)).take(8) == layout(blocks).take(8),
        layout(blocks.push(b)).subrange(8, 12) == codec::le32((blocks.len() + 1) as u32),
        layout(blocks.push(b)).skip(12) == layout(blocks).skip(12) + block_layout(b),
{
    let more = blocks.push(b);
    assert(more.drop_last() =~= blocks);
    assert(more.last() == b);
    assert(count32(more.len()) == (blocks.len() + 1) as u32);
    lemma_parts_of_layout(magic(), codec::le32(count32(more.len())), blocks_layout(more));
    lemma_parts_of_layout(magic(), codec::le32(count32(blocks.len())), blocks_layout(blocks));
}

/// Entries stand one behind the other, each a key and a vector behind their lengths.
pub proof fn law_entries_stand_one_behind_the_other(
    entries: Seq<(Seq<u8>, Seq<u8>)>,
    key: Seq<u8>,
    vec: Seq<u8>,
)
    ensures
        entries_layout(seq![]).len() == 0,
        entries_layout(entries.push((key, vec))) == entries_layout(entries) + codec::prefixed(key)
            + codec::prefixed(vec),
{
    let more = entries.push((key, vec));
    assert(more.drop_last() =~= entries);
    assert(more.last() == (key, vec));
}

} // verus!
