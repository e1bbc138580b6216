//! `VSAVE` writes a compacting snapshot of every index and truncates the
//! write-ahead log. Requires persistence to be enabled (a configured `dir`).
//!
//! The snapshot is committed before the log is cleared, so a crash in between
//! leaves a redundant but harmless log to replay.

use vstd::prelude::*;
use vstd::string::StringExecFns;

use crate::command::effect::{asks, refused, Effect, Outcome};
use crate::persist::recovery;
use crate::persist::recovery::saved;
use crate::persist::snapshot;
use crate::resp;
use crate::resp::{says, Reply, Value};
use crate::state::State;
use crate::vector::index::Memory;

verus! {

/// What `VSAVE` asks for first.
pub open spec fn first(persistent: bool, names: Seq<Seq<u8>>, m: Map<Seq<u8>, Memory>) -> Effect {
    if persistent {
        Effect::Save(snapshot::layout(saved(names, m)))
    } else {
        refused("ERR persistence not enabled; start with a data dir"@)
    }
}

/// Serves `VSAVE`.
pub fn vsave(state: &State) -> (r: Outcome)
    requires
        state.wf(),
    ensures
        asks(r, first(state.persistent, state.vectors.names(), state.vectors@)),
{
    if state.persistent {
        Outcome::Save { snapshot: recovery::save(&state.vectors) }
    } else {
        Outcome::Reply(resp::error("ERR persistence not enabled; start with a data dir"))
    }
}

/// What is left to do for `VSAVE` once the snapshot has been written, or could
/// not be.
pub enum Saving {
    /// To clear the log, and then what [`after_truncate`] says.
    Truncate,
    /// To send the reply.
    Reply(Value),
}

/// What follows the writing of the snapshot: the log is cleared only if the
/// snapshot has been committed.
pub fn after_write(written: Result<(), String>) -> (r: Saving)
    ensures
        match written {
            Ok(_) => r is Truncate,
            Err(e) => r matches Saving::Reply(v) && says(
                v,
                Reply::Error("ERR save failed: "@ + e@),
            ),
        },
{
    match written {
        Ok(_) => Saving::Truncate,
        Err(e) => Saving::Reply(failed(e.as_str())),
    }
}

/// The reply once the log has been cleared, or could not be.
pub fn after_truncate(truncated: Result<(), String>) -> (r: Value)
    ensures
        match truncated {
            Ok(_) => says(r, Reply::Simple("OK"@)),
            Err(e) => says(r, Reply::Error("ERR save failed: "@ + e@)),
        },
{
    match truncated {
        Ok(_) => resp::ok(),
        Err(e) => failed(e.as_str()),
    }
}

/// The reply to a save that failed.
fn failed(reason: &str) -> (r: Value)
    ensures
        says(r, Reply::Error("ERR save failed: "@ + reason@)),
{
    let mut s = String::from_str("ERR save failed: ");
    s.append(reason);
    Value::Error(s)
}

/// The log is cleared just if the snapshot was written, and the client is told `OK`
/// just if both succeeded; else it is told what failed, behind the same words.
pub proof fn law_log_is_cleared_only_after_the_snapshot(
    written: Result<(), String>,
    saving: Saving,
    truncated: Result<(), String>,
    reply: Value,
)
    requires
        call_ensures(after_write, (written,), saving),
        call_ensures(after_truncate, (truncated,), reply),
    ensures
        saving is Truncate <==> written is Ok,
        says(reply, Reply::Simple("OK"@)) <==> truncated is Ok,
        written matches Err(e) ==> (saving matches Saving::Reply(v) && says(
            v,
            Reply::Error("ERR save failed: "@ + e@),
        )),
        truncated matches Err(e) ==> says(reply, Reply::Error("ERR save failed: "@ + e@)),
{
}

} // verus!
