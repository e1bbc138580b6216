//! Where the next record goes in the log file.
//!
//! A record is read back only if everything before it is intact, so whatever a
//! crash or a failed append has left behind the last whole record is cut off
//! before the next one is appended.

use vstd::prelude::*;

use crate::codec;
use crate::persist::wal;

verus! {

/// What is known of a log file: how many bytes its whole records take up, and
/// whether there may be anything behind them.
#[derive(Clone, Copy, Debug, PartialEq, Eq, Structural)]
pub struct LogEnd {
    pub len: u64,
    pub torn: bool,
}

impl LogEnd {
    /// Whether that is so of a file whose whole records are `kept`.
    pub open spec fn fits(self, file: Seq<u8>, kept: Seq<Seq<u8>>) -> bool {
        &&& wal::all_short(kept)
        &&& self.len == wal::log_of(kept).len()
        &&& self.len <= file.len()
        &&& file.take(self.len as int) == wal::log_of(kept)
        &&& !self.torn ==> self.len == file.len()
    }

    /// The end of a file of `len` bytes of which `intact` are whole records.
    pub fn new(intact: usize, len: usize) -> (r: LogEnd)
        ensures
            r.len == intact,
            r.torn == (intact < len),
    {
        LogEnd { len: intact as u64, torn: intact < len }
    }

    /// The length that the file has to be set to before anything is appended to
    /// it, if there may be something to cut off.
    pub fn cut(&self) -> (r: Option<u64>)
        ensures
            r == if self.torn {
                Some(self.len)
            } else {
                None
            },
    {
        if self.torn {
            Some(self.len)
        } else {
            None
        }
    }

    /// Notes that the file was set to the length that [`LogEnd::cut`] asked for.
    pub fn after_cut(&mut self)
        ensures
            *final(self) == (LogEnd { len: old(self).len, torn: false }),
    {
        self.torn = false;
    }

    /// Notes that a frame of `n` bytes was written at the end of the file, or that
    /// writing it failed somewhere in the middle.
    pub fn after_append(&mut self, n: usize, written: bool)
        requires
            old(self).len + n <= u64::MAX,
        ensures
            *final(self) == if written {
                LogEnd { len: (old(self).len + n) as u64, torn: old(self).torn }
            } else {
                LogEnd { len: old(self).len, torn: true }
            },
    {
        if written {
            self.len = self.len + n as u64;
        } else {
            self.torn = true;
        }
    }

    /// Notes that the file was set to no length at all.
    pub fn after_clear(&mut self)
        ensures
            *final(self) == (LogEnd { len: 0, torn: false }),
    {
        self.len = 0;
        self.torn = false;
    }
}

/// Nothing that was appended whole is lost: whatever is behind it, it is read
/// back, and where nothing is behind it, nothing else is.
pub proof fn law_whole_records_are_read(end: LogEnd, file: Seq<u8>, kept: Seq<Seq<u8>>)
    requires
        end.fits(file, kept),
    ensures
        kept.is_prefix_of(wal::records(file)),
        !end.torn ==> wal::records(file) == kept,
{
    let at = end.len as int;
    assert(file =~= wal::log_of(kept) + file.skip(at));
    wal::law_replay_returns_what_was_appended(kept, file.skip(at));
    assert(kept =~= (kept + wal::records(file.skip(at))).take(kept.len() as int));
    if !end.torn {
        assert(file.skip(at) =~= seq![]);
        assert(wal::records(seq![]) =~= seq![]);
        assert(kept + wal::records(seq![]) =~= kept);
    }
}

/// What is read from a log is where its end is found.
pub proof fn law_end_is_found(file: Seq<u8>, end: LogEnd)
    requires
        end.len == wal::intact(file),
        end.torn == (wal::intact(file) < file.len()),
    ensures
        end.fits(file, wal::records(file)),
{
    wal::law_cut_log_is_whole(file);
}

/// The end stays known through everything that happens to the file: a cut, an
/// append, an append that fails after any number of bytes, and a clearing. A
/// record is appended only where there is nothing to cut off.
pub proof fn law_end_is_kept(
    end: LogEnd,
    file: Seq<u8>,
    kept: Seq<Seq<u8>>,
    payload: Seq<u8>,
    n: int,
)
    requires
        end.fits(file, kept),
        codec::short(payload),
        0 <= n <= wal::framed(payload).len(),
        end.len + wal::framed(payload).len() <= u64::MAX,
    ensures
        (LogEnd { torn: false, ..end }).fits(file.take(end.len as int), kept),
        !end.torn ==> (LogEnd {
            len: (end.len + wal::framed(payload).len()) as u64,
            torn: false,
        }).fits(file + wal::framed(payload), kept.push(payload)),
        !end.torn ==> (LogEnd { torn: true, ..end }).fits(
            file + wal::framed(payload).take(n),
            kept,
        ),
        (LogEnd { len: 0, torn: false }).fits(seq![], seq![]),
{
    let at = end.len as int;
    let frame = wal::framed(payload);
    assert(file.take(at).take(at) =~= file.take(at));
    assert((file + frame.take(n)).take(at) =~= file.take(at));
    wal::law_append_adds_one_record(kept, payload);
    if !end.torn {
        assert(file =~= file.take(at));
        assert((file + frame).take(at + frame.len()) =~= file + frame);
    }
    assert(wal::log_of(seq![]) =~= seq![]);
    assert(Seq::<u8>::empty().take(0) =~= seq![]);
}

} // verus!
