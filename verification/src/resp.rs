//! The wire format: replies as they are sent, and requests as they arrive.

use vstd::prelude::*;
use vstd::string::StringExecFns;
use vstd::utf8::encode_utf8;

use crate::codec;
use crate::text;

verus! {

/// A reply to a client.
#[derive(Debug, PartialEq)]
pub enum Value {
    /// A short text.
    Simple(String),
    /// An error message.
    Error(String),
    /// A number.
    Integer(i64),
    /// A byte string.
    Bulk(Vec<u8>),
    /// A list of replies.
    Array(Vec<Value>),
}

/// What a reply says.
pub enum Reply {
    Simple(Seq<char>),
    Error(Seq<char>),
    Integer(int),
    /// A list of byte strings.
    Bulks(Seq<Seq<u8>>),
}

/// Whether a reply says `r`.
pub open spec fn says(v: Value, r: Reply) -> bool {
    match (v, r) {
        (Value::Simple(s), Reply::Simple(t)) => s@ == t,
        (Value::Error(s), Reply::Error(t)) => s@ == t,
        (Value::Integer(n), Reply::Integer(m)) => n == m,
        (Value::Array(items), Reply::Bulks(bulks)) => {
            &&& items@.len() == bulks.len()
            &&& forall|i: int|
                0 <= i < bulks.len() ==> is_bulk(#[trigger] items@[i], bulks[i])
        },
        _ => false,
    }
}

/// Whether a reply is the byte string `b`.
pub open spec fn is_bulk(v: Value, b: Seq<u8>) -> bool {
    match v {
        Value::Bulk(bytes) => bytes@ == b,
        _ => false,
    }
}

/// An error reply.
pub fn error(message: &str) -> (r: Value)
    ensures
        says(r, Reply::Error(message@)),
{
    Value::Error(message.to_owned())
}

/// The reply to a command that succeeded.
pub fn ok() -> (r: Value)
    ensures
        says(r, Reply::Simple("OK"@)),
{
    Value::Simple("OK".to_owned())
}

/// A carriage return and a line feed.
pub open spec fn line_end() -> Seq<u8> {
    seq![0x0Du8, 0x0Au8]
}

/// A number in decimal digits, behind a minus sign if it is negative.
pub open spec fn signed_decimal(n: int) -> Seq<char> {
    if n < 0 {
        seq!['-'] + text::decimal((-n) as nat)
    } else {
        text::decimal(n as nat)
    }
}

/// A line: what marks its kind, a text, and the end of the line.
pub open spec fn line(mark: u8, t: Seq<char>) -> Seq<u8> {
    seq![mark] + encode_utf8(t) + line_end()
}

/// A reply as it is sent.
pub open spec fn wire(v: Value) -> Seq<u8>
    decreases v,
{
    match v {
        Value::Simple(s) => line(0x2B, s@),
        Value::Error(s) => line(0x2D, s@),
        Value::Integer(n) => line(0x3A, signed_decimal(n as int)),
        Value::Bulk(b) => line(0x24, text::decimal(b@.len())) + b@ + line_end(),
        Value::Array(items) => line(0x2A, text::decimal(items@.len())) + wire_all(items@),
    }
}

/// Replies as they are sent one after the other.
pub open spec fn wire_all(items: Seq<Value>) -> Seq<u8>
    decreases items,
{
    if items.len() == 0 {
        seq![]
    } else {
        wire_all(items.drop_last()) + wire(items[items.len() - 1])
    }
}

/// Appends a line.
fn put_line(out: &mut Vec<u8>, mark: u8, t: &str)
    ensures
        final(out)@ == old(out)@ + line(mark, t@),
{
    out.push(mark);
    codec::put_bytes(out, t.as_bytes());
    out.push(0x0D);
    out.push(0x0A);
    assert(out@ =~= old(out)@ + line(mark, t@));
}

/// Appends a line that holds a length.
fn put_length(out: &mut Vec<u8>, mark: u8, n: usize)
    ensures
        final(out)@ == old(out)@ + line(mark, text::decimal(n as nat)),
{
    let mut s = String::new();
    text::push_decimal(&mut s, n as u64);
    assert(s@ =~= text::decimal(n as nat));
    put_line(out, mark, s.as_str());
}

impl Value {
    /// The reply as it is sent.
    pub fn encode(&self) -> (r: Vec<u8>)
        ensures
            r@ == wire(*self),
    {
        let mut out: Vec<u8> = Vec::new();
        self.put(&mut out);
        assert(out@ =~= wire(*self));
        out
    }

    /// Appends the reply as it is sent.
    fn put(&self, out: &mut Vec<u8>)
        ensures
            final(out)@ == old(out)@ + wire(*self),
        decreases self,
    {
        match self {
            Value::Simple(s) => put_line(out, 0x2B, s.as_str()),
            Value::Error(s) => put_line(out, 0x2D, s.as_str()),
            Value::Integer(n) => {
                let mut s = String::new();
                let n: i64 = *n;
                if n < 0 {
                    proof {
                        reveal_strlit("-");
                    }
                    s.append("-");
                    let magnitude: u64 = (-(n + 1)) as u64 + 1;
                    text::push_decimal(&mut s, magnitude);
                } else {
                    text::push_decimal(&mut s, n as u64);
                }
                assert(s@ =~= signed_decimal(n as int));
                put_line(out, 0x3A, s.as_str());
            },
            Value::Bulk(b) => {
                put_length(out, 0x24, b.len());
                codec::put_bytes(out, b.as_slice());
                out.push(0x0D);
                out.push(0x0A);
                assert(out@ =~= old(out)@ + wire(*self));
            },
            Value::Array(items) => {
                put_length(out, 0x2A, items.len());
                let ghost head = out@;
                let mut i: usize = 0;
                assert(wire_all(items@.take(0)) =~= seq![]);
                while i < items.len()
                    invariant
                        i <= items@.len(),
                        *self == Value::Array(*items),
                        out@ == head + wire_all(items@.take(i as int)),
                    decreases items@.len() - i,
                {
                    proof {
                        let all = items@;
                        assert(decreases_to!(*self => (*self)->Array_0));
                        assert(decreases_to!(*items => all));
                        assert(decreases_to!(all => all[i as int]));
                    }
                    items[i].put(out);
                    proof {
                        let part = items@.take(i + 1);
                        assert(part.drop_last() =~= items@.take(i as int));
                        assert(part[part.len() - 1] == items@[i as int]);
                        assert(out@ =~= head + wire_all(part));
                    }
                    i += 1;
                }
                assert(items@.take(i as int) =~= items@);
                assert(out@ =~= old(out)@ + wire(*self));
            },
        }
    }
}

/// What the start of the bytes received from a client is.
pub enum Request {
    /// A command with its arguments, in that many bytes.
    Command { argv: Vec<Vec<u8>>, consumed: usize },
    /// A request for nothing, in that many bytes.
    Empty { consumed: usize },
    /// The start of a request of which more has to arrive.
    Incomplete,
}

/// Why bytes are not the start of a request.
#[derive(Clone, Copy, Debug, PartialEq, Eq, Structural)]
pub enum ProtocolError {
    /// The request does not start like one.
    ExpectedArray,
    /// The number of arguments is not a number.
    InvalidCount,
    /// An argument does not start like one.
    ExpectedBulk,
    /// The length of an argument is not a number.
    InvalidLength,
    /// An argument does not end where its length says.
    UnterminatedBulk,
}

impl ProtocolError {
    /// The message for the client.
    pub open spec fn text(self) -> Seq<char> {
        match self {
            ProtocolError::ExpectedArray => "ERR Protocol error: expected '*'"@,
            ProtocolError::InvalidCount => "ERR Protocol error: invalid multibulk length"@,
            ProtocolError::ExpectedBulk => "ERR Protocol error: expected '$'"@,
            ProtocolError::InvalidLength => "ERR Protocol error: invalid bulk length"@,
            ProtocolError::UnterminatedBulk => "ERR Protocol error: unterminated bulk string"@,
        }
    }

    /// The message for the client.
    pub fn message(self) -> (r: &'static str)
        ensures
            r@ == self.text(),
    {
        match self {
            ProtocolError::ExpectedArray => "ERR Protocol error: expected '*'",
            ProtocolError::InvalidCount => "ERR Protocol error: invalid multibulk length",
            ProtocolError::ExpectedBulk => "ERR Protocol error: expected '$'",
            ProtocolError::InvalidLength => "ERR Protocol error: invalid bulk length",
            ProtocolError::UnterminatedBulk => "ERR Protocol error: unterminated bulk string",
        }
    }
}

/// What the start of some bytes is, as what it says.
pub enum Received {
    Command(Seq<Seq<u8>>, int),
    Empty(int),
    Incomplete,
    Bad(ProtocolError),
}

/// What reading arguments has come to.
pub enum Arguments {
    Complete(Seq<Seq<u8>>, int),
    Incomplete,
    Bad(ProtocolError),
}

/// Whether a line ends at `pos`.
pub open spec fn ends_at(data: Seq<u8>, pos: int) -> bool {
    pos + 1 < data.len() && data[pos] == 0x0D && data[pos + 1] == 0x0A
}

/// Where the line that `pos` is in ends, if its end has arrived.
pub open spec fn line_stop(data: Seq<u8>, pos: int) -> Option<int>
    decreases data.len() - pos,
{
    if pos >= data.len() {
        None
    } else if ends_at(data, pos) {
        Some(pos)
    } else {
        line_stop(data, pos + 1)
    }
}

/// The argument at `pos`: a line with its length, its bytes, and the end of a
/// line.
pub open spec fn argument_at(data: Seq<u8>, pos: int) -> Arguments {
    if pos >= data.len() {
        Arguments::Incomplete
    } else if data[pos] != 0x24 {
        Arguments::Bad(ProtocolError::ExpectedBulk)
    } else {
        match line_stop(data, pos + 1) {
            None => Arguments::Incomplete,
            Some(stop) => match text::usize_in(data.subrange(pos + 1, stop)) {
                None => Arguments::Bad(ProtocolError::InvalidLength),
                Some(len) => {
                    let end = stop + 2 + len;
                    if end + 2 > data.len() {
                        Arguments::Incomplete
                    } else if !ends_at(data, end) {
                        Arguments::Bad(ProtocolError::UnterminatedBulk)
                    } else {
                        Arguments::Complete(seq![data.subrange(stop + 2, end)], end + 2)
                    }
                },
            },
        }
    }
}

/// The `n` arguments from `pos` on.
pub open spec fn arguments_at(data: Seq<u8>, pos: int, n: nat) -> Arguments
    decreases n,
{
    if n == 0 {
        Arguments::Complete(seq![], pos)
    } else {
        match arguments_at(data, pos, (n - 1) as nat) {
            Arguments::Complete(before, p) => match argument_at(data, p) {
                Arguments::Complete(one, end) => Arguments::Complete(before + one, end),
                other => other,
            },
            other => other,
        }
    }
}

/// What the start of the bytes received from a client is: a line with the number
/// of arguments and then the arguments, or an empty line.
pub open spec fn received(data: Seq<u8>) -> Received {
    if data.len() == 0 || data == seq![0x0Du8] {
        Received::Incomplete
    } else if ends_at(data, 0) {
        Received::Empty(2)
    } else if data[0] != 0x2A {
        Received::Bad(ProtocolError::ExpectedArray)
    } else {
        match line_stop(data, 1) {
            None => Received::Incomplete,
            Some(stop) => match text::usize_in(data.subrange(1, stop)) {
                None => Received::Bad(ProtocolError::InvalidCount),
                Some(n) => if n == 0 {
                    Received::Empty(stop + 2)
                } else {
                    match arguments_at(data, stop + 2, n as nat) {
                        Arguments::Complete(argv, end) => Received::Command(argv, end),
                        Arguments::Incomplete => Received::Incomplete,
                        Arguments::Bad(e) => Received::Bad(e),
                    }
                },
            },
        }
    }
}

/// Byte strings as what they say.
pub open spec fn words(args: Seq<Vec<u8>>) -> Seq<Seq<u8>> {
    args.map_values(|a: Vec<u8>| a@)
}

/// Where the line that `pos` is in ends, if its end has arrived.
fn find_stop(data: &[u8], pos: usize) -> (r: Option<usize>)
    requires
        pos <= data@.len(),
    ensures
        match r {
            Some(stop) => line_stop(data@, pos as int) == Some(stop as int) && pos <= stop && stop
                + 2 <= data@.len(),
            None => line_stop(data@, pos as int) is None,
        },
{
    let mut i: usize = pos;
    while i < data.len()
        invariant
            pos <= i <= data@.len(),
            line_stop(data@, pos as int) == line_stop(data@, i as int),
        decreases data@.len() - i,
    {
        if data[i] == 0x0D && i + 1 < data.len() && data[i + 1] == 0x0A {
            return Some(i);
        }
        i += 1;
    }
    None
}

/// What reading one argument has come to.
enum Argument {
    Complete(Vec<u8>, usize),
    Incomplete,
    Bad(ProtocolError),
}

/// Reads the argument at `pos`.
fn argument(data: &[u8], pos: usize) -> (r: Argument)
    requires
        pos <= data@.len(),
    ensures
        match r {
            Argument::Complete(one, end) => argument_at(data@, pos as int) == Arguments::Complete(
                seq![one@],
                end as int,
            ) && pos < end <= data@.len(),
            Argument::Incomplete => argument_at(data@, pos as int) is Incomplete,
            Argument::Bad(e) => argument_at(data@, pos as int) == Arguments::Bad(e),
        },
{
    if pos >= data.len() {
        return Argument::Incomplete;
    }
    if data[pos] != 0x24 {
        return Argument::Bad(ProtocolError::ExpectedBulk);
    }
    let stop: usize = match find_stop(data, pos + 1) {
        Some(stop) => stop,
        None => return Argument::Incomplete,
    };
    let len: usize = match text::parse_usize(&data[pos + 1..stop]) {
        Some(len) => len,
        None => return Argument::Bad(ProtocolError::InvalidLength),
    };
    let start: usize = stop + 2;
    if len > data.len() - start || data.len() - start - len < 2 {
        return Argument::Incomplete;
    }
    let end: usize = start + len;
    if data[end] != 0x0D || data[end + 1] != 0x0A {
        return Argument::Bad(ProtocolError::UnterminatedBulk);
    }
    Argument::Complete(codec::copied(&data[start..end]), end + 2)
}

impl Request {
    /// Reads the request that the bytes received so far start with.
    pub fn parse(data: &[u8]) -> (r: Result<Request, ProtocolError>)
        ensures
            match r {
                Ok(Request::Command { argv, consumed }) => {
                    &&& received(data@) == Received::Command(words(argv@), consumed as int)
                    &&& argv@.len() > 0
                    &&& 0 < consumed <= data@.len()
                },
                Ok(Request::Empty { consumed }) => received(data@) == Received::Empty(
                    consumed as int,
                ) && 0 < consumed <= data@.len(),
                Ok(Request::Incomplete) => received(data@) is Incomplete,
                Err(e) => received(data@) == Received::Bad(e),
            },
    {
        if data.len() == 0 {
            return Ok(Request::Incomplete);
        }
        if data[0] == 0x0D {
            if data.len() == 1 {
                assert(data@ =~= seq![0x0Du8]);
                return Ok(Request::Incomplete);
            }
            if data[1] == 0x0A {
                return Ok(Request::Empty { consumed: 2 });
            }
        }
        if data[0] != 0x2A {
            return Err(ProtocolError::ExpectedArray);
        }
        let stop: usize = match find_stop(data, 1) {
            Some(stop) => stop,
            None => return Ok(Request::Incomplete),
        };
        let n: usize = match text::parse_usize(&data[1..stop]) {
            Some(n) => n,
            None => return Err(ProtocolError::InvalidCount),
        };
        if n == 0 {
            return Ok(Request::Empty { consumed: stop + 2 });
        }
        let mut argv: Vec<Vec<u8>> = Vec::new();
        let mut pos: usize = stop + 2;
        let mut i: usize = 0;
        assert(words(argv@) =~= seq![]);
        while i < n
            invariant
                i <= n,
                0 < stop + 2 <= pos <= data@.len(),
                argv@.len() == i,
                arguments_at(data@, stop + 2, i as nat) == Arguments::Complete(
                    words(argv@),
                    pos as int,
                ),
                received(data@) == match arguments_at(data@, stop + 2, n as nat) {
                    Arguments::Complete(argv, end) => Received::Command(argv, end),
                    Arguments::Incomplete => Received::Incomplete,
                    Arguments::Bad(e) => Received::Bad(e),
                },
            decreases n - i,
        {
            proof {
                if !(argument_at(data@, pos as int) is Complete) {
                    lemma_arguments_stop(data@, stop + 2, i as nat + 1, n as nat);
                }
            }
            let ghost before = argv@;
            match argument(data, pos) {
                Argument::Complete(one, end) => {
                    argv.push(one);
                    assert(words(argv@) =~= words(before) + seq![one@]);
                    pos = end;
                },
                Argument::Incomplete => return Ok(Request::Incomplete),
                Argument::Bad(e) => return Err(e),
            }
            i += 1;
        }
        Ok(Request::Command { argv, consumed: pos })
    }
}

/// Arguments that cannot be read are not made readable by asking for more.
proof fn lemma_arguments_stop(data: Seq<u8>, pos: int, i: nat, n: nat)
    requires
        i <= n,
        !(arguments_at(data, pos, i) is Complete),
    ensures
        arguments_at(data, pos, n) == arguments_at(data, pos, i),
    decreases n,
{
    if i < n {
        lemma_arguments_stop(data, pos, i, (n - 1) as nat);
    }
}

proof fn lemma_line_stop_more(data: Seq<u8>, more: Seq<u8>, pos: int)
    requires
        0 <= pos,
        line_stop(data, pos) is Some,
    ensures
        line_stop(data + more, pos) == line_stop(data, pos),
        pos <= line_stop(data, pos)->0,
        line_stop(data, pos)->0 + 2 <= data.len(),
    decreases data.len() - pos,
{
    if !ends_at(data, pos) {
        lemma_line_stop_more(data, more, pos + 1);
    }
}

proof fn lemma_argument_more(data: Seq<u8>, more: Seq<u8>, pos: int)
    requires
        0 <= pos,
        !(argument_at(data, pos) is Incomplete),
    ensures
        argument_at(data + more, pos) == argument_at(data, pos),
        argument_at(data, pos) matches Arguments::Complete(_, end) ==> pos < end <= data.len(),
{
    let all = data + more;
    if data[pos] == 0x24 {
        lemma_line_stop_more(data, more, pos + 1);
        let stop = line_stop(data, pos + 1)->0;
        assert(all.subrange(pos + 1, stop) =~= data.subrange(pos + 1, stop));
        if let Some(len) = text::usize_in(data.subrange(pos + 1, stop)) {
            let end = stop + 2 + len;
            assert(all.subrange(stop + 2, end) =~= data.subrange(stop + 2, end));
        }
    }
}

proof fn lemma_arguments_more(data: Seq<u8>, more: Seq<u8>, pos: int, n: nat)
    requires
        0 <= pos,
        !(arguments_at(data, pos, n) is Incomplete),
    ensures
        arguments_at(data + more, pos, n) == arguments_at(data, pos, n),
        arguments_at(data, pos, n) matches Arguments::Complete(_, end) ==> pos <= end,
    decreases n,
{
    if n > 0 {
        lemma_arguments_more(data, more, pos, (n - 1) as nat);
        if let Arguments::Complete(before, p) = arguments_at(data, pos, (n - 1) as nat) {
            lemma_argument_more(data, more, p);
        }
    }
}

/// A request that has arrived is read alike whatever has arrived behind it, so it
/// makes no difference how the bytes were split across reads.
pub proof fn law_request_is_read_alike_when_more_arrives(data: Seq<u8>, more: Seq<u8>)
    requires
        !(received(data) is Incomplete),
    ensures
        received(data + more) == received(data),
{
    let all = data + more;
    assert(all.len() >= data.len());
    assert(all[0] == data[0]);
    if all == seq![0x0Du8] {
        assert(data =~= seq![0x0Du8]);
    }
    if data[0] == 0x2A {
        lemma_line_stop_more(data, more, 1);
        let stop = line_stop(data, 1)->0;
        assert(all.subrange(1, stop) =~= data.subrange(1, stop));
        if let Some(n) = text::usize_in(data.subrange(1, stop)) {
            if n > 0 {
                lemma_arguments_more(data, more, stop + 2, n as nat);
            }
        }
    } else if data[0] == 0x0D {
        if data.len() == 1 {
            assert(data =~= seq![0x0Du8]);
        }
        assert(all[1] == data[1]);
    }
}

/// A number in decimal digits, as bytes.
pub open spec fn digits(n: nat) -> Seq<u8> {
    encode_utf8(text::decimal(n))
}

/// A byte string as it is sent, by clients and to them: a dollar sign, its length
/// and the end of a line, and then its bytes and the end of a line.
pub open spec fn sent(b: Seq<u8>) -> Seq<u8> {
    seq![0x24u8] + digits(b.len()) + seq![0x0Du8, 0x0Au8] + b + seq![0x0Du8, 0x0Au8]
}

/// Byte strings as they are sent one after the other.
pub open spec fn sent_all(list: Seq<Seq<u8>>) -> Seq<u8>
    decreases list.len(),
{
    if list.len() == 0 {
        seq![]
    } else {
        sent_all(list.drop_last()) + sent(list.last())
    }
}

/// A list of byte strings as it is sent, by clients and to them: an asterisk, how
/// many they are and the end of a line, and then each of them.
pub open spec fn sent_list(list: Seq<Seq<u8>>) -> Seq<u8> {
    seq![0x2Au8] + digits(list.len()) + seq![0x0Du8, 0x0Au8] + sent_all(list)
}

/// The digits of a number are digits, and are read back.
proof fn lemma_digits(n: nat)
    ensures
        digits(n).len() > 0,
        forall|i: int| 0 <= i < digits(n).len() ==> 0x30 <= #[trigger] digits(n)[i] <= 0x39,
        n <= usize::MAX ==> text::usize_in(digits(n)) == Some(n as usize),
{
    let t = text::decimal(n);
    text::law_numbers_are_written_in_short(n);
    assert(vstd::utf8::is_ascii_chars(t));
    vstd::utf8::is_ascii_chars_encode_utf8(t);
    text::law_decimals_read_back(n);
    assert forall|i: int| 0 <= i < digits(n).len() implies 0x30 <= #[trigger] digits(n)[i]
        <= 0x39 by {
        assert(digits(n)[i] == t[i] as u8);
    }
}

/// A line of digits ends where they do.
proof fn lemma_line_of_digits(data: Seq<u8>, pos: int, d: Seq<u8>, i: int)
    requires
        0 <= pos,
        0 <= i <= d.len(),
        pos + d.len() + 2 <= data.len(),
        data.subrange(pos, pos + d.len()) == d,
        forall|j: int| 0 <= j < d.len() ==> 0x30 <= #[trigger] d[j] <= 0x39,
        ends_at(data, pos + d.len()),
    ensures
        line_stop(data, pos + i) == Some(pos + d.len()),
    decreases d.len() - i,
{
    if i < d.len() {
        assert(data[pos + i] == data.subrange(pos, pos + d.len())[i]);
        assert(d[i] >= 0x30);
        lemma_line_of_digits(data, pos, d, i + 1);
    }
}

/// An argument that stands at `pos` is read there.
proof fn lemma_argument_is_read(data: Seq<u8>, pos: int, b: Seq<u8>)
    requires
        0 <= pos,
        b.len() <= usize::MAX,
        pos + sent(b).len() <= data.len(),
        data.subrange(pos, pos + sent(b).len()) == sent(b),
    ensures
        argument_at(data, pos) == Arguments::Complete(seq![b], pos + sent(b).len()),
{
    let d = digits(b.len());
    let part = data.subrange(pos, pos + sent(b).len());
    let n = d.len() as int;
    lemma_digits(b.len());
    assert(part[0] == 0x24 && data[pos] == part[0]);
    assert(data.subrange(pos + 1, pos + 1 + n) =~= d) by {
        assert forall|i: int| 0 <= i < n implies data[pos + 1 + i] == d[i] by {
            assert(part[1 + i] == d[i]);
        }
    }
    assert(part[1 + n] == 0x0D && part[2 + n] == 0x0A);
    assert(data[pos + 1 + n] == part[1 + n] && data[pos + 2 + n] == part[2 + n]);
    lemma_line_of_digits(data, pos + 1, d, 0);
    let start = pos + 3 + n;
    let end = start + b.len();
    assert(data.subrange(start, end) =~= b) by {
        assert forall|i: int| 0 <= i < b.len() implies data[start + i] == b[i] by {
            assert(part[3 + n + i] == b[i]);
        }
    }
    assert(part[3 + n + b.len()] == 0x0D && part[4 + n + b.len()] == 0x0A);
    assert(data[end] == part[3 + n + b.len()] && data[end + 1] == part[4 + n + b.len()]);
}

/// Arguments that stand at `pos`, one after the other, are read there.
proof fn lemma_arguments_are_read(data: Seq<u8>, pos: int, list: Seq<Seq<u8>>)
    requires
        0 <= pos,
        forall|i: int| 0 <= i < list.len() ==> (#[trigger] list[i]).len() <= usize::MAX,
        pos + sent_all(list).len() <= data.len(),
        data.subrange(pos, pos + sent_all(list).len()) == sent_all(list),
    ensures
        arguments_at(data, pos, list.len()) == Arguments::Complete(
            list,
            pos + sent_all(list).len(),
        ),
    decreases list.len(),
{
    if list.len() == 0 {
        assert(list =~= seq![]);
    } else {
        let less = list.drop_last();
        let b = list.last();
        assert(b == list[list.len() - 1]);
        let whole = data.subrange(pos, pos + sent_all(list).len());
        let p = pos + sent_all(less).len();
        assert(data.subrange(pos, p) =~= sent_all(less)) by {
            assert(whole.subrange(0, sent_all(less).len() as int) =~= sent_all(less));
            assert(data.subrange(pos, p) =~= whole.subrange(0, sent_all(less).len() as int));
        }
        assert(data.subrange(p, p + sent(b).len()) =~= sent(b)) by {
            let at = sent_all(less).len() as int;
            assert(whole.subrange(at, at + sent(b).len()) =~= sent(b));
            assert(data.subrange(p, p + sent(b).len()) =~= whole.subrange(at, at + sent(b).len()));
        }
        assert forall|i: int| 0 <= i < less.len() implies (#[trigger] less[i]).len()
            <= usize::MAX by {
            assert(less[i] == list[i]);
        }
        lemma_arguments_are_read(data, pos, less);
        lemma_argument_is_read(data, p, b);
        assert(less + seq![b] =~= list);
    }
}

/// A request is read as the words that the client sent, whatever follows it, and
/// takes up as many bytes as were sent for it.
pub proof fn law_request_is_read_as_it_was_sent(argv: Seq<Seq<u8>>, rest: Seq<u8>)
    requires
        0 < argv.len() <= usize::MAX,
        forall|i: int| 0 <= i < argv.len() ==> (#[trigger] argv[i]).len() <= usize::MAX,
    ensures
        received(sent_list(argv) + rest) == Received::Command(argv, sent_list(argv).len() as int),
{
    let data = sent_list(argv) + rest;
    let d = digits(argv.len());
    let n = d.len() as int;
    lemma_digits(argv.len());
    assert(data[0] == 0x2A);
    assert(data.subrange(1, 1 + n) =~= d);
    assert(data[1 + n] == 0x0D && data[2 + n] == 0x0A);
    lemma_line_of_digits(data, 1, d, 0);
    assert(data.subrange(3 + n, 3 + n + sent_all(argv).len()) =~= sent_all(argv));
    lemma_arguments_are_read(data, 3 + n, argv);
}

/// A request that was cut short anywhere is not read yet, and no part of it is
/// taken for anything else.
pub proof fn law_cut_request_is_incomplete(argv: Seq<Seq<u8>>, n: int)
    requires
        0 < argv.len() <= usize::MAX,
        forall|i: int| 0 <= i < argv.len() ==> (#[trigger] argv[i]).len() <= usize::MAX,
        0 <= n < sent_list(argv).len(),
    ensures
        received(sent_list(argv).take(n)) is Incomplete,
{
    let whole = sent_list(argv);
    let cut = whole.take(n);
    if !(received(cut) is Incomplete) {
        law_request_is_read_alike_when_more_arrives(cut, whole.skip(n));
        assert(cut + whole.skip(n) =~= whole);
        law_request_is_read_as_it_was_sent(argv, seq![]);
        assert(whole + seq![] =~= whole);
        assert(cut[0] == whole[0] && whole[0] == 0x2A);
        lemma_command_ends_within(cut);
    }
}

/// A request that was read ends within what has arrived.
proof fn lemma_command_ends_within(data: Seq<u8>)
    requires
        received(data) is Command,
    ensures
        received(data)->Command_1 <= data.len(),
{
    let stop = line_stop(data, 1)->0;
    let n = text::usize_in(data.subrange(1, stop))->0;
    lemma_line_stop_more(data, seq![], 1);
    lemma_arguments_end_within(data, stop + 2, n as nat);
}

proof fn lemma_arguments_end_within(data: Seq<u8>, pos: int, n: nat)
    requires
        0 <= pos <= data.len(),
        arguments_at(data, pos, n) is Complete,
    ensures
        pos <= arguments_at(data, pos, n)->Complete_1 <= data.len(),
    decreases n,
{
    if n > 0 {
        lemma_arguments_end_within(data, pos, (n - 1) as nat);
        let p = arguments_at(data, pos, (n - 1) as nat)->Complete_1;
        lemma_argument_more(data, seq![], p);
    }
}

/// An empty line, and a list of nothing, ask for nothing.
pub proof fn law_requests_for_nothing_are_passed_over(rest: Seq<u8>)
    ensures
        received(seq![0x0Du8, 0x0Au8] + rest) == Received::Empty(2),
        received(sent_list(seq![]) + rest) == Received::Empty(sent_list(seq![]).len() as int),
{
    let list = sent_list(seq![]);
    let data = list + rest;
    let d = digits(0);
    let n = d.len() as int;
    lemma_digits(0);
    assert(sent_all(seq![]) =~= seq![]);
    assert(data[0] == 0x2A);
    assert(data.subrange(1, 1 + n) =~= d);
    assert(data[1 + n] == 0x0D && data[2 + n] == 0x0A);
    lemma_line_of_digits(data, 1, d, 0);
    let blank = seq![0x0Du8, 0x0Au8] + rest;
    assert(blank[0] == 0x0D && blank[1] == 0x0A);
}

/// Bytes that start like no request are refused as such, and so is an argument that
/// starts like none.
pub proof fn law_what_is_no_request_is_refused(data: Seq<u8>, n: nat, rest: Seq<u8>)
    ensures
        data.len() > 0 && data[0] != 0x2A && data[0] != 0x0D ==> received(data) == Received::Bad(
            ProtocolError::ExpectedArray,
        ),
        0 < n <= usize::MAX && rest.len() > 0 && rest[0] != 0x24 ==> received(
            seq![0x2Au8] + digits(n) + seq![0x0Du8, 0x0Au8] + rest,
        ) == Received::Bad(ProtocolError::ExpectedBulk),
{
    if 0 < n <= usize::MAX && rest.len() > 0 && rest[0] != 0x24 {
        let all = seq![0x2Au8] + digits(n) + seq![0x0Du8, 0x0Au8] + rest;
        let d = digits(n);
        let k = d.len() as int;
        lemma_digits(n);
        assert(all[0] == 0x2A);
        assert(all.subrange(1, 1 + k) =~= d);
        assert(all[1 + k] == 0x0D && all[2 + k] == 0x0A);
        lemma_line_of_digits(all, 1, d, 0);
        assert(all[3 + k] == rest[0]);
        assert(argument_at(all, 3 + k) == Arguments::Bad(ProtocolError::ExpectedBulk));
        reveal_with_fuel(arguments_at, 2);
        lemma_arguments_stop(all, 3 + k, 1, n);
    }
}

/// A reply says one thing.
pub proof fn law_reply_says_one_thing(v: Value, a: Reply, b: Reply)
    requires
        says(v, a),
        says(v, b),
    ensures
        a == b,
{
    if let (Value::Array(items), Reply::Bulks(x)) = (v, a) {
        let y = b->Bulks_0;
        assert forall|i: int| 0 <= i < x.len() implies x[i] == y[i] by {
            assert(is_bulk(items@[i], x[i]));
            assert(is_bulk(items@[i], y[i]));
        }
        assert(x =~= y);
    }
}

proof fn lemma_bulks_are_sent(items: Seq<Value>, list: Seq<Seq<u8>>)
    requires
        items.len() == list.len(),
        forall|i: int| 0 <= i < list.len() ==> is_bulk(#[trigger] items[i], list[i]),
    ensures
        wire_all(items) == sent_all(list),
    decreases list.len(),
{
    if list.len() > 0 {
        let n = list.len() - 1;
        assert forall|i: int| 0 <= i < n implies is_bulk(
            #[trigger] items.drop_last()[i],
            list.drop_last()[i],
        ) by {
            assert(is_bulk(items[i], list[i]));
        }
        lemma_bulks_are_sent(items.drop_last(), list.drop_last());
        assert(is_bulk(items[n], list[n]));
        assert(wire(items[n]) =~= sent(list[n]));
    }
}

/// A reply that is a list of byte strings is sent as clients send a list, and can be
/// read as one.
pub proof fn law_list_is_sent_as_lists_are(v: Value, list: Seq<Seq<u8>>)
    requires
        says(v, Reply::Bulks(list)),
    ensures
        wire(v) == sent_list(list),
{
    let items = v->Array_0@;
    lemma_bulks_are_sent(items, list);
    assert(wire(v) =~= sent_list(list));
}

/// A short text, an error and a number are each sent as one line: a mark, the text,
/// and the end of the line. A number that is not negative is sent as digits that
/// read back as it, and a negative one as those of its size behind a minus sign.
pub proof fn law_other_replies_are_sent_as_a_line(v: Value)
    ensures
        v matches Value::Simple(s) ==> wire(v) == seq![0x2Bu8] + encode_utf8(s@) + seq![
            0x0Du8,
            0x0Au8,
        ],
        v matches Value::Error(s) ==> wire(v) == seq![0x2Du8] + encode_utf8(s@) + seq![
            0x0Du8,
            0x0Au8,
        ],
        v matches Value::Integer(n) ==> wire(v) == if n < 0 {
            seq![0x3Au8, 0x2Du8] + digits((-n) as nat) + seq![0x0Du8, 0x0Au8]
        } else {
            seq![0x3Au8] + digits(n as nat) + seq![0x0Du8, 0x0Au8]
        },
{
    if let Value::Integer(n) = v {
        if n < 0 {
            let t = text::decimal((-n) as nat);
            text::law_numbers_are_written_in_short((-n) as nat);
            let whole = seq!['-'] + t;
            assert(vstd::utf8::is_ascii_chars(t));
            assert(vstd::utf8::is_ascii_chars(whole));
            vstd::utf8::is_ascii_chars_encode_utf8(t);
            vstd::utf8::is_ascii_chars_encode_utf8(whole);
            assert(encode_utf8(whole) =~= seq![0x2Du8] + encode_utf8(t));
            assert(wire(v) =~= seq![0x3Au8, 0x2Du8] + digits((-n) as nat) + seq![0x0Du8, 0x0Au8]);
        }
    }
}

/// A line without a carriage return in it ends where it does.
proof fn lemma_line_without_return(data: Seq<u8>, pos: int, t: Seq<u8>, i: int)
    requires
        0 <= pos,
        0 <= i <= t.len(),
        pos + t.len() + 2 <= data.len(),
        data.subrange(pos, pos + t.len()) == t,
        forall|j: int| 0 <= j < t.len() ==> #[trigger] t[j] != 0x0D,
        ends_at(data, pos + t.len()),
    ensures
        line_stop(data, pos + i) == Some(pos + t.len()),
    decreases t.len() - i,
{
    if i < t.len() {
        assert(data[pos + i] == data.subrange(pos, pos + t.len())[i]);
        lemma_line_without_return(data, pos, t, i + 1);
    }
}

/// A count that is no number or too large is refused as such.
pub proof fn law_broken_count_is_refused(t: Seq<u8>, rest: Seq<u8>)
    requires
        forall|j: int| 0 <= j < t.len() ==> #[trigger] t[j] != 0x0D,
        text::usize_in(t) is None,
    ensures
        received(seq![0x2Au8] + t + seq![0x0Du8, 0x0Au8] + rest) == Received::Bad(
            ProtocolError::InvalidCount,
        ),
{
    let all = seq![0x2Au8] + t + seq![0x0Du8, 0x0Au8] + rest;
    let n = t.len() as int;
    assert(all.subrange(1, 1 + n) =~= t);
    assert(all[0] == 0x2A && all[1 + n] == 0x0D && all[2 + n] == 0x0A);
    lemma_line_without_return(all, 1, t, 0);
}

/// What a request for one argument is depends on how that argument reads.
proof fn lemma_one_argument(rest: Seq<u8>)
    ensures
        ({
            let head = seq![0x2Au8] + digits(1) + seq![0x0Du8, 0x0Au8];
            let all = head + rest;
            received(all) == match argument_at(all, head.len() as int) {
                Arguments::Complete(argv, end) => Received::Command(argv, end),
                Arguments::Incomplete => Received::Incomplete,
                Arguments::Bad(e) => Received::Bad(e),
            }
        }),
{
    let head = seq![0x2Au8] + digits(1) + seq![0x0Du8, 0x0Au8];
    let all = head + rest;
    let d = digits(1);
    let k = d.len() as int;
    lemma_digits(1);
    assert(all[0] == 0x2A && all[1 + k] == 0x0D && all[2 + k] == 0x0A);
    assert(all.subrange(1, 1 + k) =~= d);
    lemma_line_of_digits(all, 1, d, 0);
    assert(arguments_at(all, 3 + k, 0) == Arguments::Complete(seq![], 3 + k));
    if let Arguments::Complete(one, end) = argument_at(all, 3 + k) {
        assert(Seq::<Seq<u8>>::empty() + one =~= one);
    }
}

/// A length that is no number or too large is refused as such.
pub proof fn law_broken_length_is_refused(t: Seq<u8>, rest: Seq<u8>)
    requires
        forall|j: int| 0 <= j < t.len() ==> #[trigger] t[j] != 0x0D,
        text::usize_in(t) is None,
    ensures
        received(
            seq![0x2Au8] + digits(1) + seq![0x0Du8, 0x0Au8] + (seq![0x24u8] + t + seq![
                0x0Du8,
                0x0Au8,
            ] + rest),
        ) == Received::Bad(ProtocolError::InvalidLength),
{
    let head = seq![0x2Au8] + digits(1) + seq![0x0Du8, 0x0Au8];
    let tail = seq![0x24u8] + t + seq![0x0Du8, 0x0Au8] + rest;
    lemma_one_argument(tail);
    let all = head + tail;
    let p = head.len() as int;
    let n = t.len() as int;
    assert(all[p] == tail[0] && tail[0] == 0x24);
    assert(tail.subrange(1, 1 + n) =~= t);
    assert(all.subrange(p + 1, p + 1 + n) =~= t);
    assert(tail[1 + n] == 0x0D && tail[2 + n] == 0x0A);
    assert(all[p + 1 + n] == 0x0D && all[p + 2 + n] == 0x0A);
    lemma_line_without_return(all, p + 1, t, 0);
}

/// An argument that does not end where its length says is refused as such.
pub proof fn law_broken_end_is_refused(b: Seq<u8>, end: Seq<u8>, rest: Seq<u8>)
    requires
        b.len() <= usize::MAX,
        end.len() == 2,
        end != seq![0x0Du8, 0x0Au8],
    ensures
        received(
            seq![0x2Au8] + digits(1) + seq![0x0Du8, 0x0Au8] + (seq![0x24u8] + digits(b.len())
                + seq![0x0Du8, 0x0Au8] + b + end + rest),
        ) == Received::Bad(ProtocolError::UnterminatedBulk),
{
    let head = seq![0x2Au8] + digits(1) + seq![0x0Du8, 0x0Au8];
    let e = digits(b.len());
    let tail = seq![0x24u8] + e + seq![0x0Du8, 0x0Au8] + b + end + rest;
    lemma_one_argument(tail);
    lemma_digits(b.len());
    let all = head + tail;
    let p = head.len() as int;
    let n = e.len() as int;
    assert(all[p] == tail[0] && tail[0] == 0x24);
    assert(tail.subrange(1, 1 + n) =~= e);
    assert(all.subrange(p + 1, p + 1 + n) =~= e);
    assert(tail[1 + n] == 0x0D && tail[2 + n] == 0x0A);
    assert(all[p + 1 + n] == 0x0D && all[p + 2 + n] == 0x0A);
    lemma_line_of_digits(all, p + 1, e, 0);
    let stop = 3 + n + b.len();
    assert(tail[stop] == end[0] && tail[stop + 1] == end[1]);
    assert(all[p + stop] == end[0] && all[p + stop + 1] == end[1]);
    if end[0] == 0x0D && end[1] == 0x0A {
        assert(end =~= seq![0x0Du8, 0x0Au8]);
    }
}

/// What the client is told of a broken request.
pub proof fn law_broken_requests_are_told_apart()
    ensures
        ProtocolError::ExpectedArray.text() == "ERR Protocol error: expected '*'"@,
        ProtocolError::InvalidCount.text() == "ERR Protocol error: invalid multibulk length"@,
        ProtocolError::ExpectedBulk.text() == "ERR Protocol error: expected '$'"@,
        ProtocolError::InvalidLength.text() == "ERR Protocol error: invalid bulk length"@,
        ProtocolError::UnterminatedBulk.text() == "ERR Protocol error: unterminated bulk string"@,
{
}

/// The words of a request are its byte strings, one for one.
pub proof fn law_words_are_the_byte_strings(args: Seq<Vec<u8>>)
    ensures
        words(args).len() == args.len(),
        forall|i: int| 0 <= i < args.len() ==> #[trigger] words(args)[i] == args[i]@,
{
}

/// What replies of each kind say.
pub proof fn law_replies_say_what_they_hold(v: Value, r: Reply)
    requires
        says(v, r),
    ensures
        v matches Value::Simple(s) ==> r == Reply::Simple(s@),
        v matches Value::Error(s) ==> r == Reply::Error(s@),
        v matches Value::Integer(n) ==> r == Reply::Integer(n as int),
        v matches Value::Array(items) ==> (r matches Reply::Bulks(list) && list.len()
            == items@.len() && forall|i: int|
            0 <= i < list.len() ==> (#[trigger] items@[i] matches Value::Bulk(b) && b@ == list[i])),
        !(v is Bulk),
{
    if let (Value::Array(items), Reply::Bulks(list)) = (v, r) {
        assert forall|i: int| 0 <= i < list.len() implies (#[trigger] items@[i] matches Value::Bulk(
            b,
        ) && b@ == list[i]) by {
            assert(is_bulk(items@[i], list[i]));
        }
    }
}

} // verus!
