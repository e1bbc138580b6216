//! Which request of which connection is served next.
//!
//! Most commands run inline on the event-loop thread: they touch only the
//! in-memory maps and finish in nanoseconds. `VSEARCH` is different: walking the
//! graph can take milliseconds, long enough to stall every other client. So a
//! search is handed to a pool of worker threads, which read the registry under a
//! shared lock and send the encoded reply back.
//!
//! To keep a single connection's replies in request order, a connection with a
//! search in flight is marked busy and no further commands from it are dispatched
//! until the search completes. Other connections are unaffected.
//!
//! The sockets and the threads are the caller's; what is decided between two
//! events is decided here.

use std::collections::HashMap;

use vstd::prelude::*;

use crate::codec;
use crate::resp;
use crate::resp::{received, says, words, Received, Reply, Request, Value};
use crate::text;

verus! {

broadcast use vstd::std_specs::hash::group_hash_axioms;

/// Returns whether `name` is the `VSEARCH` command (the offloaded one).
pub fn is_search(name: &[u8]) -> (r: bool)
    ensures
        r == text::spelled(name@, "vsearch"@),
{
    proof {
        reveal_strlit("vsearch");
    }
    text::spells(name, "vsearch")
}

/// A connected client and the bytes read from it but not yet parsed.
struct Connection {
    /// Bytes received but not yet consumed by a complete command, which may
    /// arrive split across reads.
    buffer: Vec<u8>,
    /// A monotonic id distinguishing this connection from a later one that
    /// happens to reuse the same file descriptor.
    id: u64,
    /// True while a search is in flight; no commands are dispatched until it
    /// completes, so replies stay in request order.
    busy: bool,
}

/// A connection as what is known of it.
#[verifier::ext_equal]
pub struct Link {
    pub buffer: Seq<u8>,
    pub id: u64,
    pub busy: bool,
}

impl Connection {
    closed spec fn view(&self) -> Link {
        Link { buffer: self.buffer@, id: self.id, busy: self.busy }
    }
}

/// What is to be done for a connection.
pub enum Next {
    /// Nothing, until more arrives or a search completes.
    Wait,
    /// To serve a command and send the reply.
    Serve { argv: Vec<Vec<u8>> },
    /// To hand a search to the workers, for the connection with that id.
    Search { conn_id: u64, argv: Vec<Vec<u8>> },
    /// To send an error and close the connection.
    Fail { reply: Value },
}

/// What is to be done for a connection, as what it says.
pub enum Turn {
    Wait,
    Serve(Seq<Seq<u8>>),
    Search(Seq<Seq<u8>>),
    Fail(Seq<char>),
}

/// What the bytes of a connection that is not busy call for, with the bytes that
/// are left. Requests for nothing are passed over.
pub open spec fn turn(buffer: Seq<u8>) -> (Turn, Seq<u8>)
    decreases buffer.len(),
{
    match received(buffer) {
        Received::Command(argv, n) => (
            if text::spelled(argv[0], "vsearch"@) {
                Turn::Search(argv)
            } else {
                Turn::Serve(argv)
            },
            buffer.skip(n),
        ),
        Received::Empty(n) => if 0 < n <= buffer.len() {
            turn(buffer.skip(n))
        } else {
            (Turn::Wait, buffer)
        },
        Received::Incomplete => (Turn::Wait, buffer),
        Received::Bad(e) => (Turn::Fail(e.text()), buffer),
    }
}

/// Whether `next` calls for what `t` says, for the connection with that id.
pub open spec fn calls_for(next: Next, t: Turn, id: u64) -> bool {
    match (next, t) {
        (Next::Wait, Turn::Wait) => true,
        (Next::Serve { argv }, Turn::Serve(w)) => words(argv@) == w && w.len() > 0,
        (Next::Search { conn_id, argv }, Turn::Search(w)) => words(argv@) == w && w.len() > 0
            && conn_id == id,
        (Next::Fail { reply }, Turn::Fail(e)) => says(reply, Reply::Error(e)),
        _ => false,
    }
}

/// The connections as what is known of them.
#[verifier::ext_equal]
pub struct Desk {
    /// What is known of each connection, by file descriptor.
    pub links: Map<i32, Link>,
    /// The id that the next connection gets.
    pub next_id: u64,
}

impl Desk {
    /// No two connections have the same id, and the next one gets a new one.
    pub open spec fn wf(self) -> bool {
        &&& forall|fd: i32| #[trigger]
            self.links.contains_key(fd) ==> self.links[fd].id < self.next_id
        &&& forall|a: i32, b: i32| #[trigger]
            self.links.contains_key(a) && #[trigger] self.links.contains_key(b) && self.links[a].id
                == self.links[b].id ==> a == b
    }

    /// With a new connection.
    pub open spec fn accepted(self, fd: i32) -> Desk {
        Desk {
            links: self.links.insert(fd, Link { buffer: seq![], id: self.next_id, busy: false }),
            next_id: (self.next_id + 1) as u64,
        }
    }

    /// Without a connection.
    pub open spec fn closed(self, fd: i32) -> Desk {
        Desk { links: self.links.remove(fd), ..self }
    }

    /// With what is known of a connection changed, if it is there.
    pub open spec fn changed(self, fd: i32, link: Link) -> Desk {
        if self.links.contains_key(fd) {
            Desk { links: self.links.insert(fd, link), ..self }
        } else {
            self
        }
    }

    /// With bytes that a connection sent.
    pub open spec fn received(self, fd: i32, bytes: Seq<u8>) -> Desk {
        let link = self.links[fd];
        self.changed(fd, Link { buffer: link.buffer + bytes, ..link })
    }

    /// Whether something can be done for a connection: it is there, and waits for
    /// no search.
    pub open spec fn idle(self, fd: i32) -> bool {
        self.links.contains_key(fd) && !self.links[fd].busy
    }

    /// Once it was decided what to do next for a connection: its bytes are
    /// consumed, and it is busy if a search is called for, or dropped if it sent
    /// something that is no request.
    pub open spec fn moved_on(self, fd: i32) -> Desk {
        if self.idle(fd) {
            let link = self.links[fd];
            let (t, rest) = turn(link.buffer);
            if t is Fail {
                self.closed(fd)
            } else {
                self.changed(fd, Link { buffer: rest, busy: t is Search, ..link })
            }
        } else {
            self
        }
    }

    /// Once the reply to the search of a connection was sent.
    pub open spec fn resumed(self, fd: i32) -> Desk {
        self.changed(fd, Link { busy: false, ..self.links[fd] })
    }

    /// Whether the connection that now has the file descriptor is the one with
    /// that id and waits for a search.
    pub open spec fn awaits(self, fd: i32, conn_id: u64) -> bool {
        self.links.contains_key(fd) && self.links[fd].id == conn_id && self.links[fd].busy
    }

    /// After something has happened.
    pub open spec fn after(self, event: Event) -> Desk {
        match event {
            Event::Accepted(fd) => if self.next_id < u64::MAX {
                self.accepted(fd)
            } else {
                self
            },
            Event::Closed(fd) => self.closed(fd),
            Event::Received(fd, bytes) => self.received(fd, bytes),
            Event::MovedOn(fd) => self.moved_on(fd),
            Event::Resumed(fd) => self.resumed(fd),
        }
    }

    /// After several things have happened, one after the other.
    pub open spec fn after_all(self, events: Seq<Event>) -> Desk
        decreases events.len(),
    {
        if events.len() == 0 {
            self
        } else {
            self.after_all(events.drop_last()).after(events.last())
        }
    }

    /// Whether an id was given away, and no connection but the one with that file
    /// descriptor, if any, has it.
    spec fn given_to(self, conn_id: u64, holder: Option<i32>) -> bool {
        &&& conn_id < self.next_id
        &&& forall|fd: i32| #[trigger]
            self.links.contains_key(fd) && self.links[fd].id == conn_id ==> holder == Some(fd)
    }
}

/// What may happen to the connections. None is accepted once the ids have run
/// out.
pub enum Event {
    Accepted(i32),
    Closed(i32),
    Received(i32, Seq<u8>),
    MovedOn(i32),
    Resumed(i32),
}

/// The live connections.
pub struct Connections {
    /// Live connections, keyed by file descriptor.
    links: HashMap<i32, Connection>,
    /// Source of unique connection ids.
    next_id: u64,
}

impl Connections {
    /// What is known of the connections.
    pub closed spec fn view(&self) -> Desk {
        Desk {
            links: self.links@.map_values(|c: Connection| c@),
            next_id: self.next_id,
        }
    }

    /// The ids are in order.
    pub open spec fn wf(&self) -> bool {
        self@.wf()
    }

    /// Starts without connections.
    pub fn new() -> (r: Connections)
        ensures
            r.wf(),
            r@ == (Desk { links: Map::empty(), next_id: 0 }),
    {
        let r = Connections { links: HashMap::new(), next_id: 0 };
        assert(r@.links =~= Map::empty());
        r
    }

    /// Whether there is an id left for a new connection.
    pub fn has_id(&self) -> (r: bool)
        ensures
            r == (self@.next_id < u64::MAX),
    {
        self.next_id < u64::MAX
    }

    /// Takes on a new connection.
    pub fn accept(&mut self, fd: i32)
        requires
            old(self).wf(),
            old(self)@.next_id < u64::MAX,
        ensures
            final(self).wf(),
            final(self)@ == old(self)@.accepted(fd),
    {
        let id: u64 = self.next_id;
        self.next_id = id + 1;
        let c = Connection { buffer: Vec::new(), id, busy: false };
        assert(c.buffer@ =~= seq![]);
        self.links.insert(fd, c);
        assert(self@ =~= old(self)@.accepted(fd));
    }

    /// Drops a connection.
    pub fn close(&mut self, fd: i32)
        requires
            old(self).wf(),
        ensures
            final(self).wf(),
            final(self)@ == old(self)@.closed(fd),
    {
        self.links.remove(&fd);
        assert(self@ =~= old(self)@.closed(fd));
    }

    /// Takes in bytes read from a connection.
    pub fn receive(&mut self, fd: i32, bytes: &[u8])
        requires
            old(self).wf(),
        ensures
            final(self).wf(),
            final(self)@ == old(self)@.received(fd, bytes@),
    {
        if let Some(c) = self.links.remove(&fd) {
            let mut c = c;
            codec::put_bytes(&mut c.buffer, bytes);
            self.links.insert(fd, c);
            assert(self@ =~= old(self)@.received(fd, bytes@));
        } else {
            assert(self@ =~= old(self)@);
        }
    }

    /// What is to be done for a connection: nothing if it is gone or busy waiting
    /// on a search, else what its bytes call for, which are consumed. A connection
    /// for which a search is called for is busy from then on; one that sent
    /// something that is no request is dropped.
    pub fn next(&mut self, fd: i32) -> (r: Next)
        requires
            old(self).wf(),
        ensures
            final(self).wf(),
            final(self)@ == old(self)@.moved_on(fd),
            if old(self)@.idle(fd) {
                let link = old(self)@.links[fd];
                calls_for(r, turn(link.buffer).0, link.id)
            } else {
                r is Wait
            },
    {
        let mut c = match self.links.remove(&fd) {
            Some(c) => c,
            None => {
                assert(self@ =~= old(self)@);
                return Next::Wait;
            },
        };
        if c.busy {
            self.links.insert(fd, c);
            assert(self@ =~= old(self)@);
            return Next::Wait;
        }
        let ghost link = c@;
        let mut next = Next::Wait;
        loop
            invariant_except_break
                turn(c.buffer@) == turn(link.buffer),
                c.id == link.id,
                !c.busy,
                next is Wait,
            ensures
                ({
                    let (t, rest) = turn(link.buffer);
                    &&& calls_for(next, t, link.id)
                    &&& c.id == link.id
                    &&& !(t is Fail) ==> c@ == (Link { buffer: rest, busy: t is Search, ..link })
                }),
            decreases c.buffer@.len(),
        {
            match Request::parse(c.buffer.as_slice()) {
                Ok(Request::Command { argv, consumed }) => {
                    c.buffer = codec::copied(&c.buffer.as_slice()[consumed..c.buffer.len()]);
                    if is_search(argv[0].as_slice()) {
                        c.busy = true;
                        next = Next::Search { conn_id: c.id, argv };
                    } else {
                        next = Next::Serve { argv };
                    }
                    break;
                },
                Ok(Request::Empty { consumed }) => {
                    c.buffer = codec::copied(&c.buffer.as_slice()[consumed..c.buffer.len()]);
                },
                Ok(Request::Incomplete) => {
                    break;
                },
                Err(e) => {
                    next = Next::Fail { reply: resp::error(e.message()) };
                    break;
                },
            }
        }
        if let Next::Fail { .. } = next {
            assert(self@ =~= old(self)@.closed(fd));
        } else {
            self.links.insert(fd, c);
            assert(self@ =~= old(self)@.changed(fd, c@));
        }
        next
    }

    /// Whether the result of a search is for the connection that now has the file
    /// descriptor. Another connection may have taken it over while the search was
    /// running.
    pub fn awaits(&self, fd: i32, conn_id: u64) -> (r: bool)
        ensures
            r == self@.awaits(fd, conn_id),
    {
        match self.links.get(&fd) {
            Some(c) => c.id == conn_id && c.busy,
            None => false,
        }
    }

    /// Lets a connection go on after the reply to its search was sent.
    pub fn resume(&mut self, fd: i32)
        requires
            old(self).wf(),
        ensures
            final(self).wf(),
            final(self)@ == old(self)@.resumed(fd),
    {
        if let Some(c) = self.links.remove(&fd) {
            let mut c = c;
            c.busy = false;
            self.links.insert(fd, c);
            assert(self@ =~= old(self)@.resumed(fd));
        } else {
            assert(self@ =~= old(self)@);
        }
    }
}

proof fn lemma_given_to(desk: Desk, conn_id: u64, holder: Option<i32>, events: Seq<Event>)
    requires
        desk.given_to(conn_id, holder),
    ensures
        desk.after_all(events).given_to(conn_id, holder),
    decreases events.len(),
{
    if events.len() > 0 {
        lemma_given_to(desk, conn_id, holder, events.drop_last());
    }
}

/// Whatever happens, no two connections have the same id.
pub proof fn law_ids_stay_apart(desk: Desk, events: Seq<Event>)
    requires
        desk.wf(),
    ensures
        desk.after_all(events).wf(),
    decreases events.len(),
{
    if events.len() > 0 {
        law_ids_stay_apart(desk, events.drop_last());
    }
}

/// The result of a search never reaches another connection than the one that asked
/// for it. Whatever happens while the search is running, its id is awaited on no
/// other file descriptor; and once that connection is closed, it is awaited on none
/// again, for whoever takes over the file descriptor has another id.
pub proof fn law_result_reaches_no_other_connection(
    desk: Desk,
    fd: i32,
    events: Seq<Event>,
    later: Seq<Event>,
    other: i32,
)
    requires
        desk.wf(),
        desk.links.contains_key(fd),
    ensures
        ({
            let conn_id = desk.links[fd].id;
            let then = desk.after_all(events);
            &&& then.awaits(other, conn_id) ==> other == fd
            &&& !then.closed(fd).after_all(later).awaits(other, conn_id)
        }),
{
    let conn_id = desk.links[fd].id;
    let then = desk.after_all(events);
    assert(desk.given_to(conn_id, Some(fd)));
    lemma_given_to(desk, conn_id, Some(fd), events);
    assert(then.closed(fd).given_to(conn_id, None));
    lemma_given_to(then.closed(fd), conn_id, None, later);
}

/// A request that has arrived is taken off the front of what a connection sent, and
/// what is behind it is left for later. A search is handed out, anything else is
/// served.
pub proof fn law_requests_are_taken_in_order(argv: Seq<Seq<u8>>, rest: Seq<u8>)
    requires
        0 < argv.len() <= usize::MAX,
        forall|i: int| 0 <= i < argv.len() ==> (#[trigger] argv[i]).len() <= usize::MAX,
    ensures
        turn(resp::sent_list(argv) + rest) == (
            if text::spelled(argv[0], "vsearch"@) {
                Turn::Search(argv)
            } else {
                Turn::Serve(argv)
            },
            rest,
        ),
{
    let data = resp::sent_list(argv) + rest;
    resp::law_request_is_read_as_it_was_sent(argv, rest);
    assert(data.skip(resp::sent_list(argv).len() as int) =~= rest);
}

/// Requests for nothing are passed over, nothing is done for part of a request, and
/// what is no request is answered with an error.
pub proof fn law_only_whole_requests_are_served(
    rest: Seq<u8>,
    argv: Seq<Seq<u8>>,
    n: int,
    data: Seq<u8>,
)
    requires
        0 < argv.len() <= usize::MAX,
        forall|i: int| 0 <= i < argv.len() ==> (#[trigger] argv[i]).len() <= usize::MAX,
        0 <= n < resp::sent_list(argv).len(),
    ensures
        turn(seq![0x0Du8, 0x0Au8] + rest) == turn(rest),
        turn(resp::sent_list(argv).take(n)) == (Turn::Wait, resp::sent_list(argv).take(n)),
        data.len() > 0 && data[0] != 0x2A && data[0] != 0x0D ==> turn(data).0 == Turn::Fail(
            "ERR Protocol error: expected '*'"@,
        ),
{
    resp::law_requests_for_nothing_are_passed_over(rest);
    assert((seq![0x0Du8, 0x0Au8] + rest).skip(2) =~= rest);
    resp::law_cut_request_is_incomplete(argv, n);
    resp::law_what_is_no_request_is_refused(data, 1, rest);
}

/// What a connection is told to do next is what its bytes call for: the words are
/// those of the request, and a search is handed out in the name of that connection.
pub proof fn law_next_is_what_was_asked(next: Next, t: Turn, id: u64)
    requires
        calls_for(next, t, id),
    ensures
        t matches Turn::Serve(w) ==> (next matches Next::Serve { argv } && words(argv@) == w),
        t matches Turn::Search(w) ==> (next matches Next::Search { conn_id, argv } && words(argv@)
            == w && conn_id == id),
        t matches Turn::Fail(e) ==> (next matches Next::Fail { reply } && says(
            reply,
            Reply::Error(e),
        )),
        t is Wait ==> next is Wait,
{
}

/// The connection that something happens to.
pub open spec fn happens_to(event: Event) -> i32 {
    match event {
        Event::Accepted(fd) => fd,
        Event::Closed(fd) => fd,
        Event::Received(fd, _) => fd,
        Event::MovedOn(fd) => fd,
        Event::Resumed(fd) => fd,
    }
}

/// What happens to one connection leaves the others as they are.
pub proof fn law_connections_do_not_mix(desk: Desk, event: Event, other: i32)
    requires
        happens_to(event) != other,
    ensures
        desk.after(event).links.contains_key(other) <==> desk.links.contains_key(other),
        desk.links.contains_key(other) ==> desk.after(event).links[other] == desk.links[other],
{
}

/// It makes no difference how the bytes of a connection are split across reads.
pub proof fn law_bytes_add_up(desk: Desk, fd: i32, a: Seq<u8>, b: Seq<u8>)
    ensures
        desk.received(fd, a).received(fd, b) == desk.received(fd, a + b),
        desk.links.contains_key(fd) ==> desk.received(fd, a).links[fd].buffer
            == desk.links[fd].buffer + a,
{
    if desk.links.contains_key(fd) {
        let x = desk.received(fd, a).received(fd, b);
        let y = desk.received(fd, a + b);
        assert((desk.links[fd].buffer + a) + b =~= desk.links[fd].buffer + (a + b));
        assert(x.links =~= y.links);
    }
}

/// A search that is handed out makes its connection wait, with the requests behind
/// it kept for later, and once it is resumed the next of them has its turn.
pub proof fn law_search_makes_its_connection_wait(
    desk: Desk,
    fd: i32,
    argv: Seq<Seq<u8>>,
    rest: Seq<u8>,
)
    requires
        desk.idle(fd),
        desk.links[fd].buffer == resp::sent_list(argv) + rest,
        0 < argv.len() <= usize::MAX,
        forall|i: int| 0 <= i < argv.len() ==> (#[trigger] argv[i]).len() <= usize::MAX,
    ensures
        ({
            let then = desk.moved_on(fd);
            let search = text::spelled(argv[0], "vsearch"@);
            &&& then.links.contains_key(fd)
            &&& then.links[fd].buffer == rest
            &&& then.awaits(fd, desk.links[fd].id) == search
            &&& then.idle(fd) == !search
            &&& then.resumed(fd).idle(fd)
            &&& then.resumed(fd).links[fd].buffer == rest
        }),
{
    law_requests_are_taken_in_order(argv, rest);
}

/// While a search is in flight its connection goes on waiting, whatever else
/// happens, and nothing that it sends meanwhile is consumed, so that replies stay in
/// the order of the requests.
pub proof fn law_waiting_connection_keeps_its_bytes(
    desk: Desk,
    fd: i32,
    conn_id: u64,
    events: Seq<Event>,
)
    requires
        desk.awaits(fd, conn_id),
        forall|i: int|
            0 <= i < events.len() ==> {
                let e = #[trigger] events[i];
                e != Event::Accepted(fd) && e != Event::Closed(fd) && e != Event::Resumed(fd)
            },
    ensures
        desk.after_all(events).awaits(fd, conn_id),
        desk.links[fd].buffer.is_prefix_of(desk.after_all(events).links[fd].buffer),
    decreases events.len(),
{
    let buffer = desk.links[fd].buffer;
    if events.len() == 0 {
        assert(buffer =~= buffer.take(buffer.len() as int));
    } else {
        let less = events.drop_last();
        let e = events.last();
        assert(e == events[events.len() - 1]);
        assert forall|i: int| 0 <= i < less.len() implies {
            let e = #[trigger] less[i];
            e != Event::Accepted(fd) && e != Event::Closed(fd) && e != Event::Resumed(fd)
        } by {
            assert(less[i] == events[i]);
        }
        law_waiting_connection_keeps_its_bytes(desk, fd, conn_id, less);
        let mid = desk.after_all(less);
        if happens_to(e) != fd {
            law_connections_do_not_mix(mid, e, fd);
        } else if let Event::Received(_, bytes) = e {
            let now = mid.links[fd].buffer + bytes;
            assert(now.take(buffer.len() as int) =~= mid.links[fd].buffer.take(
                buffer.len() as int,
            ));
        }
    }
}

/// A new connection has sent nothing and waits for nothing, and has an id that no
/// other has. One that sends what is no request is dropped.
pub proof fn law_connections_start_afresh(desk: Desk, fd: i32, other: i32)
    requires
        desk.wf(),
        desk.next_id < u64::MAX,
    ensures
        desk.accepted(fd).idle(fd),
        desk.accepted(fd).links[fd].buffer.len() == 0,
        desk.links.contains_key(other) ==> desk.accepted(fd).links[fd].id != desk.links[other].id,
        !desk.closed(fd).links.contains_key(fd),
        desk.idle(fd) && turn(desk.links[fd].buffer).0 is Fail ==> !desk.moved_on(
            fd,
        ).links.contains_key(fd),
        desk.idle(fd) && turn(desk.links[fd].buffer).0 is Wait ==> desk.moved_on(fd).idle(fd),
{
}

} // verus!
