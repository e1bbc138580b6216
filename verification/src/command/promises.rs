//! What the commands promise their clients, from the words of a request to the
//! reply and to what the indices hold afterwards.

use vstd::prelude::*;
use vstd::utf8::encode_utf8;

use crate::codec;
use crate::command::effect::{asks, Effect, Outcome};
use crate::command::{roomy, served, Command};
use crate::persist::durability::{
    all_savable, law_saved_registry_finds_ids, law_saved_registry_is_recovered, prepared, reread,
};
use crate::persist::op::{decoded, law_records_round_trip, Mutation};
use crate::persist::recovery::{saved, saved_block};
use crate::persist::replay::{recovered, sound};
use crate::persist::room::enough_ids;
use crate::persist::snapshot;
use crate::persist::wal;
use crate::resp::{says, Reply};
use crate::text;
use crate::vector;
use crate::vector::float;
use crate::vector::float::{Float, Operation};
use crate::vector::graph;
use crate::vector::index;
use crate::vector::index::{well_found, Hit, Memory};
use crate::vector::metric;
use crate::vector::metric::Metric;
use crate::vector::registry::{contents, Contents};

verus! {

/// What a request is answered at once, if it is: a snapshot has to be written
/// first.
pub open spec fn replied(effect: Effect) -> Option<Reply> {
    match effect {
        Effect::Reply(r) => Some(r),
        Effect::Logged(_, r) => Some(r),
        Effect::Save(_) => None,
    }
}

/// Every index but the one of that name is in `after` as it is in `m`, and there is
/// no other.
pub open spec fn others_stay(
    m: Map<Seq<u8>, Memory>,
    name: Seq<u8>,
    after: Map<Seq<u8>, Memory>,
) -> bool {
    forall|other: Seq<u8>|
        other != name ==> (#[trigger] after.contains_key(other) <==> m.contains_key(other)) && (
        m.contains_key(other) ==> after[other] == m[other])
}

/// Six words name a command, in letters of either case, and no other does.
pub proof fn law_six_words_name_the_commands(word: Seq<u8>)
    ensures
        text::spelled(word, "vadd"@) <==> Command::named(word) == Some(Command::Vadd),
        text::spelled(word, "vdel"@) <==> Command::named(word) == Some(Command::Vdel),
        text::spelled(word, "vinfo"@) <==> Command::named(word) == Some(Command::Vinfo),
        text::spelled(word, "vnew"@) <==> Command::named(word) == Some(Command::Vnew),
        text::spelled(word, "vsave"@) <==> Command::named(word) == Some(Command::Vsave),
        text::spelled(word, "vsearch"@) <==> Command::named(word) == Some(Command::Vsearch),
        Command::named(word) matches Some(c) ==> text::spelled(word, c.name()),
{
    reveal_strlit("vadd");
    reveal_strlit("vdel");
    reveal_strlit("vinfo");
    reveal_strlit("vnew");
    reveal_strlit("vsave");
    reveal_strlit("vsearch");
    let second = text::lowercase(word[1]) as int;
    assert(text::spelled(word, "vadd"@) ==> second == 'a' as int);
    assert(text::spelled(word, "vdel"@) ==> second == 'd' as int);
    assert(text::spelled(word, "vnew"@) ==> second == 'n' as int);
    assert(text::spelled(word, "vinfo"@) ==> second == 'i' as int);
    assert(text::spelled(word, "vsave"@) ==> second == 's' as int);
}

/// A request that names no command is refused, and so is one with too many or too
/// few words. Neither changes anything.
pub proof fn law_malformed_requests_are_refused<
    A: Fn(Operation<'_>) -> Float,
    L: Fn(u64, u64, usize) -> u8,
    T: Fn(Float) -> Vec<u8>,
>(
    arith: A,
    level_of: L,
    write: T,
    persistent: bool,
    names: Seq<Seq<u8>>,
    m: Map<Seq<u8>, Memory>,
    argv: Seq<Seq<u8>>,
    effect: Effect,
    after: Map<Seq<u8>, Memory>,
)
    requires
        served(arith, level_of, write, persistent, names, m, argv, effect, after),
    ensures
        !text::spelled(argv[0], "vadd"@) && !text::spelled(argv[0], "vdel"@) && !text::spelled(
            argv[0],
            "vinfo"@,
        ) && !text::spelled(argv[0], "vnew"@) && !text::spelled(argv[0], "vsave"@)
            && !text::spelled(argv[0], "vsearch"@) ==> effect == Effect::Reply(
            Reply::Error("ERR unknown command"@),
        ) && after == m,
        text::spelled(argv[0], "vadd"@) && argv.len() != 4 ==> effect == Effect::Reply(
            Reply::Error("ERR wrong number of arguments for 'vadd' command"@),
        ) && after == m,
        text::spelled(argv[0], "vdel"@) && argv.len() != 3 ==> effect == Effect::Reply(
            Reply::Error("ERR wrong number of arguments for 'vdel' command"@),
        ) && after == m,
        text::spelled(argv[0], "vinfo"@) && argv.len() != 2 ==> effect == Effect::Reply(
            Reply::Error("ERR wrong number of arguments for 'vinfo' command"@),
        ) && after == m,
        text::spelled(argv[0], "vnew"@) && argv.len() < 3 ==> effect == Effect::Reply(
            Reply::Error("ERR wrong number of arguments for 'vnew' command"@),
        ) && after == m,
        text::spelled(argv[0], "vsave"@) && argv.len() != 1 ==> effect == Effect::Reply(
            Reply::Error("ERR wrong number of arguments for 'vsave' command"@),
        ) && after == m,
        text::spelled(argv[0], "vsearch"@) && argv.len() < 4 ==> effect == Effect::Reply(
            Reply::Error("ERR wrong number of arguments for 'vsearch' command"@),
        ) && after == m,
{
    law_six_words_name_the_commands(argv[0]);
    reveal_strlit("ERR wrong number of arguments for '");
    reveal_strlit("' command");
    reveal_strlit("vadd");
    reveal_strlit("vdel");
    reveal_strlit("vinfo");
    reveal_strlit("vnew");
    reveal_strlit("vsave");
    reveal_strlit("vsearch");
    reveal_strlit("ERR wrong number of arguments for 'vadd' command");
    reveal_strlit("ERR wrong number of arguments for 'vdel' command");
    reveal_strlit("ERR wrong number of arguments for 'vinfo' command");
    reveal_strlit("ERR wrong number of arguments for 'vnew' command");
    reveal_strlit("ERR wrong number of arguments for 'vsave' command");
    reveal_strlit("ERR wrong number of arguments for 'vsearch' command");
    assert("ERR wrong number of arguments for '"@ + "vadd"@ + "' command"@
        =~= "ERR wrong number of arguments for 'vadd' command"@);
    assert("ERR wrong number of arguments for '"@ + "vdel"@ + "' command"@
        =~= "ERR wrong number of arguments for 'vdel' command"@);
    assert("ERR wrong number of arguments for '"@ + "vinfo"@ + "' command"@
        =~= "ERR wrong number of arguments for 'vinfo' command"@);
    assert("ERR wrong number of arguments for '"@ + "vnew"@ + "' command"@
        =~= "ERR wrong number of arguments for 'vnew' command"@);
    assert("ERR wrong number of arguments for '"@ + "vsave"@ + "' command"@
        =~= "ERR wrong number of arguments for 'vsave' command"@);
    assert("ERR wrong number of arguments for '"@ + "vsearch"@ + "' command"@
        =~= "ERR wrong number of arguments for 'vsearch' command"@);
}

/// A request that is answered with an error changes nothing and is not logged, and
/// only `VNEW`, `VADD` and `VDEL` ever change anything.
pub proof fn law_refused_requests_change_nothing<
    A: Fn(Operation<'_>) -> Float,
    L: Fn(u64, u64, usize) -> u8,
    T: Fn(Float) -> Vec<u8>,
>(
    arith: A,
    level_of: L,
    write: T,
    persistent: bool,
    names: Seq<Seq<u8>>,
    m: Map<Seq<u8>, Memory>,
    argv: Seq<Seq<u8>>,
    effect: Effect,
    after: Map<Seq<u8>, Memory>,
)
    requires
        served(arith, level_of, write, persistent, names, m, argv, effect, after),
    ensures
        replied(effect) matches Some(Reply::Error(_)) ==> after == m && effect is Reply,
        !text::spelled(argv[0], "vnew"@) && !text::spelled(argv[0], "vadd"@) && !text::spelled(
            argv[0],
            "vdel"@,
        ) ==> after == m && !(effect is Logged),
        !persistent ==> effect is Reply,
        effect is Save ==> text::spelled(argv[0], "vsave"@),
{
    law_six_words_name_the_commands(argv[0]);
}

/// `VNEW` with a free name, a positive dimension and, behind the word `METRIC`, the
/// name of a metric in letters of either case, leaves an empty index of that
/// dimension and metric beside the others and answers `OK`. Without a metric the
/// index is a cosine one.
pub proof fn law_vnew_creates_an_index<
    A: Fn(Operation<'_>) -> Float,
    L: Fn(u64, u64, usize) -> u8,
    T: Fn(Float) -> Vec<u8>,
>(
    arith: A,
    level_of: L,
    write: T,
    persistent: bool,
    names: Seq<Seq<u8>>,
    m: Map<Seq<u8>, Memory>,
    argv: Seq<Seq<u8>>,
    effect: Effect,
    after: Map<Seq<u8>, Memory>,
    dim: nat,
    metric: Metric,
)
    requires
        served(arith, level_of, write, persistent, names, m, argv, effect, after),
        text::spelled(argv[0], "vnew"@),
        !m.contains_key(argv[1]),
        text::unsigned(argv[2]) == Some(dim),
        0 < dim <= usize::MAX,
        ({
            ||| argv.len() == 3 && metric == Metric::Cosine
            ||| argv.len() == 5 && text::spelled(argv[3], "metric"@) && text::spelled(
                argv[4],
                metric.name(),
            )
        }),
    ensures
        replied(effect) == Some(Reply::Simple("OK"@)),
        after.contains_key(argv[1]),
        after[argv[1]].wf(),
        after[argv[1]].contents() == (Contents { dim, metric, entries: Map::empty() }),
        others_stay(m, argv[1], after),
        persistent && dim < 0x1_0000_0000 ==> (effect matches Effect::Logged(
            Mutation::New { name, dim: logged, metric: tag },
            _,
        ) && name == argv[1] && logged == dim && Metric::tagged(tag) == Some(metric)),
{
    law_six_words_name_the_commands(argv[0]);
    let args = argv.drop_first();
    assert(args[0] == argv[1] && args[1] == argv[2]);
    if argv.len() == 5 {
        assert(args[2] == argv[3] && args[3] == argv[4]);
        metric::law_metric_names_round_trip(metric, argv[4]);
    }
    metric::law_metric_tags_round_trip(metric, metric.tag());
    let new = after[argv[1]];
    assert(new == Memory::fresh(dim, metric));
    assert(new.entries() =~= Map::empty());
    index::lemma_fresh_wf(dim, metric);
}

/// When `VNEW` is refused: for a dimension that is no number, too large or zero,
/// for words behind it that are not `METRIC` and a metric, and for a name that is
/// taken.
pub proof fn law_vnew_is_refused<
    A: Fn(Operation<'_>) -> Float,
    L: Fn(u64, u64, usize) -> u8,
    T: Fn(Float) -> Vec<u8>,
>(
    arith: A,
    level_of: L,
    write: T,
    persistent: bool,
    names: Seq<Seq<u8>>,
    m: Map<Seq<u8>, Memory>,
    argv: Seq<Seq<u8>>,
    effect: Effect,
    after: Map<Seq<u8>, Memory>,
)
    requires
        served(arith, level_of, write, persistent, names, m, argv, effect, after),
        text::spelled(argv[0], "vnew"@),
        argv.len() >= 3,
    ensures
        ({
            let number = text::unsigned(argv[2]);
            let good = number is Some && 0 < number->0 <= usize::MAX;
            let known = argv.len() == 5 && ({
                ||| text::spelled(argv[4], "cosine"@)
                ||| text::spelled(argv[4], "l2"@)
                ||| text::spelled(argv[4], "euclidean"@)
                ||| text::spelled(argv[4], "dot"@)
                ||| text::spelled(argv[4], "ip"@)
            });
            let worded = argv.len() == 5 && text::spelled(argv[3], "metric"@);
            &&& !good ==> effect == Effect::Reply(
                Reply::Error("ERR dimension must be a positive integer"@),
            )
            &&& good && argv.len() != 3 && !worded ==> effect == Effect::Reply(
                Reply::Error("ERR syntax error"@),
            )
            &&& good && worded && !known ==> effect == Effect::Reply(
                Reply::Error("ERR unknown metric"@),
            )
            &&& good && (argv.len() == 3 || worded && known) && m.contains_key(argv[1])
                ==> effect == Effect::Reply(Reply::Error("ERR index already exists"@))
            &&& good && (argv.len() == 3 || worded && known) && !m.contains_key(argv[1])
                ==> replied(effect) == Some(Reply::Simple("OK"@))
        }),
{
    law_six_words_name_the_commands(argv[0]);
    let args = argv.drop_first();
    assert(args[0] == argv[1] && args[1] == argv[2]);
    if argv.len() == 5 {
        assert(args[2] == argv[3] && args[3] == argv[4]);
        metric::law_metrics_go_by_five_names(argv[4]);
        if text::spelled(argv[4], "cosine"@) {
            metric::law_metric_names_round_trip(Metric::Cosine, argv[4]);
        }
        if text::spelled(argv[4], "l2"@) {
            metric::law_metric_names_round_trip(Metric::L2, argv[4]);
        }
        if text::spelled(argv[4], "dot"@) {
            metric::law_metric_names_round_trip(Metric::Dot, argv[4]);
        }
    }
}

/// `VADD` of a vector that fits its index leaves the key leading to it, as the
/// metric prepares it, and every other key and index as it was. It answers `1` if
/// the key is new and `0` if it was there, and logs the bytes as they came.
pub proof fn law_vadd_sets_the_key<
    A: Fn(Operation<'_>) -> Float,
    L: Fn(u64, u64, usize) -> u8,
    T: Fn(Float) -> Vec<u8>,
>(
    arith: A,
    level_of: L,
    write: T,
    persistent: bool,
    names: Seq<Seq<u8>>,
    m: Map<Seq<u8>, Memory>,
    argv: Seq<Seq<u8>>,
    effect: Effect,
    after: Map<Seq<u8>, Memory>,
    v: Seq<Float>,
)
    requires
        sound(m),
        served(arith, level_of, write, persistent, names, m, argv, effect, after),
        text::spelled(argv[0], "vadd"@),
        argv.len() == 4,
        m.contains_key(argv[1]),
        vector::unpacked(argv[3]) == Some(v),
        v.len() == m[argv[1]].dim,
    ensures
        replied(effect) == Some(
            Reply::Integer(
                if m[argv[1]].entries().contains_key(argv[2]) {
                    0
                } else {
                    1
                },
            ),
        ),
        after.contains_key(argv[1]),
        after[argv[1]].dim == m[argv[1]].dim,
        after[argv[1]].metric == m[argv[1]].metric,
        after[argv[1]].entries().dom() == m[argv[1]].entries().dom().insert(argv[2]),
        forall|key: Seq<u8>|
            key != argv[2] && #[trigger] m[argv[1]].entries().contains_key(key)
                ==> after[argv[1]].entries()[key] == m[argv[1]].entries()[key],
        metric::gives_prepared(
            arith,
            m[argv[1]].metric,
            v,
            after[argv[1]].entries()[argv[2]],
        ),
        m[argv[1]].metric != Metric::Cosine ==> after[argv[1]].entries()[argv[2]] == v,
        others_stay(m, argv[1], after),
        persistent ==> (effect matches Effect::Logged(op, _) && op == (Mutation::Add {
            name: argv[1],
            key: argv[2],
            vec: argv[3],
        })),
{
    law_six_words_name_the_commands(argv[0]);
    let args = argv.drop_first();
    assert(args[0] == argv[1] && args[1] == argv[2] && args[2] == argv[3]);
    let old = m[argv[1]];
    let new = choose|memory: Memory| #[trigger]
        index::added(arith, level_of, old, memory, argv[2], v) && after == m.insert(
            argv[1],
            memory,
        );
    index::law_add_sets_the_entry(arith, level_of, old, new, argv[2], v);
}

/// When `VADD` is refused: for an index that does not exist, for bytes that are no
/// vector of finite numbers, and for a vector of another dimension.
pub proof fn law_vadd_is_refused<
    A: Fn(Operation<'_>) -> Float,
    L: Fn(u64, u64, usize) -> u8,
    T: Fn(Float) -> Vec<u8>,
>(
    arith: A,
    level_of: L,
    write: T,
    persistent: bool,
    names: Seq<Seq<u8>>,
    m: Map<Seq<u8>, Memory>,
    argv: Seq<Seq<u8>>,
    effect: Effect,
    after: Map<Seq<u8>, Memory>,
)
    requires
        served(arith, level_of, write, persistent, names, m, argv, effect, after),
        text::spelled(argv[0], "vadd"@),
        argv.len() == 4,
    ensures
        !m.contains_key(argv[1]) ==> effect == Effect::Reply(Reply::Error("ERR no such index"@)),
        m.contains_key(argv[1]) && vector::unpacked(argv[3]) is None ==> effect == Effect::Reply(
            Reply::Error("ERR invalid vector encoding"@),
        ),
        m.contains_key(argv[1]) && vector::unpacked(argv[3]) is Some && vector::unpacked(
            argv[3],
        )->0.len() != m[argv[1]].dim ==> effect == Effect::Reply(
            Reply::Error(
                "ERR wrong vector dimension: index expects "@ + text::decimal(m[argv[1]].dim)
                    + ", got "@ + text::decimal(argv[3].len() / 4),
            ),
        ),
{
    law_six_words_name_the_commands(argv[0]);
    let args = argv.drop_first();
    assert(args[0] == argv[1] && args[1] == argv[2] && args[2] == argv[3]);
}

/// `VDEL` leaves the index without the key and everything else as it was. It
/// answers `1` and is logged if the key was there, and answers `0` if it was not.
pub proof fn law_vdel_drops_the_key<
    A: Fn(Operation<'_>) -> Float,
    L: Fn(u64, u64, usize) -> u8,
    T: Fn(Float) -> Vec<u8>,
>(
    arith: A,
    level_of: L,
    write: T,
    persistent: bool,
    names: Seq<Seq<u8>>,
    m: Map<Seq<u8>, Memory>,
    argv: Seq<Seq<u8>>,
    effect: Effect,
    after: Map<Seq<u8>, Memory>,
)
    requires
        sound(m),
        served(arith, level_of, write, persistent, names, m, argv, effect, after),
        text::spelled(argv[0], "vdel"@),
        argv.len() == 3,
    ensures
        !m.contains_key(argv[1]) ==> effect == Effect::Reply(Reply::Error("ERR no such index"@)),
        m.contains_key(argv[1]) ==> {
            let there = m[argv[1]].entries().contains_key(argv[2]);
            &&& replied(effect) == Some(
                Reply::Integer(
                    if there {
                        1
                    } else {
                        0
                    },
                ),
            )
            &&& after.contains_key(argv[1])
            &&& contents(after)[argv[1]] == (Contents {
                dim: m[argv[1]].dim,
                metric: m[argv[1]].metric,
                entries: m[argv[1]].entries().remove(argv[2]),
            })
            &&& effect is Logged <==> persistent && there
            &&& effect matches Effect::Logged(op, _) ==> op == (Mutation::Del {
                name: argv[1],
                key: argv[2],
            })
        },
        others_stay(m, argv[1], after),
{
    law_six_words_name_the_commands(argv[0]);
    let args = argv.drop_first();
    assert(args[0] == argv[1] && args[1] == argv[2]);
    if m.contains_key(argv[1]) {
        index::law_remove_drops_the_entry(m[argv[1]], argv[2]);
        if !m[argv[1]].entries().contains_key(argv[2]) {
            assert(m[argv[1]].entries().remove(argv[2]) =~= m[argv[1]].entries());
        }
    }
}

/// `VINFO` answers with three fields: the dimension, the name of the metric, and
/// how many keys are live, the numbers in decimal.
pub proof fn law_vinfo_describes_the_index<
    A: Fn(Operation<'_>) -> Float,
    L: Fn(u64, u64, usize) -> u8,
    T: Fn(Float) -> Vec<u8>,
>(
    arith: A,
    level_of: L,
    write: T,
    persistent: bool,
    names: Seq<Seq<u8>>,
    m: Map<Seq<u8>, Memory>,
    argv: Seq<Seq<u8>>,
    effect: Effect,
    after: Map<Seq<u8>, Memory>,
)
    requires
        served(arith, level_of, write, persistent, names, m, argv, effect, after),
        text::spelled(argv[0], "vinfo"@),
        argv.len() == 2,
    ensures
        after == m,
        !m.contains_key(argv[1]) ==> effect == Effect::Reply(Reply::Error("ERR no such index"@)),
        m.contains_key(argv[1]) ==> (effect matches Effect::Reply(Reply::Bulks(bulks)) && {
            &&& bulks.len() == 6
            &&& bulks[0] == encode_utf8("dim"@)
            &&& text::unsigned(bulks[1]) == Some(m[argv[1]].dim)
            &&& bulks[2] == encode_utf8("metric"@)
            &&& text::spelled(bulks[3], m[argv[1]].metric.name())
            &&& Metric::named(bulks[3]) == Some(m[argv[1]].metric)
            &&& bulks[4] == encode_utf8("count"@)
            &&& text::unsigned(bulks[5]) == Some(m[argv[1]].entries().len())
        }),
{
    law_six_words_name_the_commands(argv[0]);
    let args = argv.drop_first();
    assert(args[0] == argv[1]);
    if m.contains_key(argv[1]) {
        let index = m[argv[1]];
        text::law_decimals_read_back(index.dim);
        text::law_decimals_read_back(index.entries().len());
        lemma_metric_name_is_spelled(index.metric);
        metric::law_metric_names_round_trip(index.metric, encode_utf8(index.metric.name()));
    }
}

proof fn lemma_metric_name_is_spelled(metric: Metric)
    ensures
        text::spelled(encode_utf8(metric.name()), metric.name()),
{
    reveal_strlit("cosine");
    reveal_strlit("l2");
    reveal_strlit("dot");
    let name = metric.name();
    assert(vstd::utf8::is_ascii_chars(name));
    vstd::utf8::is_ascii_chars_encode_utf8(name);
    text::law_word_is_spelled_by_its_bytes(name);
    assert(encode_utf8(name) =~= name.map_values(|c: char| c as u8));
}

/// Whether the byte strings list results pair by pair: each key, and behind it a
/// text that `write` may write for its distance.
pub open spec fn pairs_of<T: Fn(Float) -> Vec<u8>>(
    write: T,
    hits: Seq<Hit>,
    bulks: Seq<Seq<u8>>,
) -> bool {
    &&& bulks.len() == 2 * hits.len()
    &&& forall|i: int|
        0 <= i < hits.len() ==> bulks[2 * i] == (#[trigger] hits[i]).key && exists|t: Vec<u8>|
         #[trigger]
            call_ensures(write, (hits[i].distance,), t) && t@ == bulks[2 * i + 1]
}

/// Whether no live key that is missing among the results is closer to `q` than one
/// of them.
pub open spec fn none_closer<A: Fn(Operation<'_>) -> Float>(
    arith: A,
    memory: Memory,
    q: Seq<Float>,
    hits: Seq<Hit>,
) -> bool {
    forall|key: Seq<u8>| #[trigger]
        memory.entries().contains_key(key) && (forall|i: int|
            0 <= i < hits.len() ==> (#[trigger] hits[i]).key != key) ==> exists|d: Float|
         #[trigger]
            metric::gives_distance(arith, memory.metric, q, memory.entries()[key], d) && forall|
                i: int,
            |
                0 <= i < hits.len() ==> (#[trigger] hits[i]).distance.rank() <= d.rank()
}

/// `VSEARCH` for `k` keys lists live keys, each once, closest first, each with its
/// distance from the query. If the search is as wide as the index is large, they
/// are the `k` nearest, or all if there are fewer; a narrower one lists `k`, or as
/// many as it is wide less those that were deleted or overwritten. The index has
/// to be small for that, or the lowest layer of its graph connected. The breadth is
/// the number behind `EF`, or 64, and never less than `k`.
pub proof fn law_vsearch_lists_the_nearest<
    A: Fn(Operation<'_>) -> Float,
    L: Fn(u64, u64, usize) -> u8,
    T: Fn(Float) -> Vec<u8>,
>(
    arith: A,
    level_of: L,
    write: T,
    persistent: bool,
    names: Seq<Seq<u8>>,
    m: Map<Seq<u8>, Memory>,
    argv: Seq<Seq<u8>>,
    effect: Effect,
    after: Map<Seq<u8>, Memory>,
    query: Seq<Float>,
    k: nat,
    ef: nat,
)
    requires
        sound(m),
        served(arith, level_of, write, persistent, names, m, argv, effect, after),
        text::spelled(argv[0], "vsearch"@),
        m.contains_key(argv[1]),
        vector::unpacked(argv[2]) == Some(query),
        query.len() == m[argv[1]].dim,
        text::unsigned(argv[3]) == Some(k),
        k <= usize::MAX,
        ({
            ||| argv.len() == 4 && ef == 64
            ||| argv.len() == 6 && text::spelled(argv[4], "ef"@) && text::unsigned(argv[5])
                == Some(ef) && ef <= usize::MAX
        }),
    ensures
        after == m,
        effect matches Effect::Reply(Reply::Bulks(bulks)) && {
            let memory = m[argv[1]];
            let live = memory.entries().len();
            let total = memory.keys.len();
            &&& k == 0 ==> bulks.len() == 0
            &&& bulks.len() <= 2 * k
            &&& k > 0 ==> exists|q: Seq<Float>, hits: Seq<Hit>|
                metric::gives_prepared(arith, memory.metric, query, q) && #[trigger] well_found(
                    arith,
                    memory,
                    q,
                    hits,
                ) && pairs_of(write, hits, bulks) && ((total <= 33 || graph::connected(
                    memory.graph,
                )) && (total <= k || total <= ef) ==> none_closer(arith, memory, q, hits))
            &&& (total <= 33 || graph::connected(memory.graph)) && (total <= k || total <= ef)
                ==> bulks.len() == if k <= live {
                2 * k
            } else {
                2 * live
            }
            &&& total <= 33 || graph::connected(memory.graph) ==> bulks.len() == 2 * k
                || bulks.len() >= 2 * (k + live - total) && bulks.len() >= 2 * (ef + live - total)
                || bulks.len() >= 2 * live
        },
{
    law_six_words_name_the_commands(argv[0]);
    let args = argv.drop_first();
    assert(args[0] == argv[1] && args[1] == argv[2] && args[2] == argv[3]);
    if argv.len() == 6 {
        assert(args[3] == argv[4] && args[4] == argv[5]);
    }
    let memory = m[argv[1]];
    let (hits, texts, bulks) = choose|hits: Seq<Hit>, texts: Seq<Seq<u8>>, bulks: Seq<Seq<u8>>|
        index::searched(arith, memory, query, k, ef, hits)
            && #[trigger] crate::command::vsearch::listed(write, hits, texts, bulks)
            && effect->Reply_0 == Reply::Bulks(bulks);
    index::law_search_returns_live_keys(arith, memory, query, k, ef, hits);
    lemma_listed_pairs(write, hits, texts, bulks);
    if memory.keys.len() <= 33 || graph::connected(memory.graph) {
        index::law_search_passes_over_the_dead_only(arith, memory, query, k, ef, hits);
    }
    if k > 0 {
        if (memory.keys.len() <= 33 || graph::connected(memory.graph)) && (memory.keys.len() <= k
            || memory.keys.len() <= ef) {
            index::law_wide_search_is_exact(arith, memory, query, k, ef, hits);
            let q = choose|q: Seq<Float>| #[trigger]
                metric::gives_prepared(arith, memory.metric, query, q) && index::nearest(
                    arith,
                    memory,
                    q,
                    k,
                    hits,
                );
            lemma_nearest_leaves_none_closer(arith, memory, q, k, hits);
            assert(well_found(arith, memory, q, hits));
        } else {
            let q = choose|q: Seq<Float>| #[trigger]
                metric::gives_prepared(arith, memory.metric, query, q) && well_found(
                    arith,
                    memory,
                    q,
                    hits,
                );
            assert(well_found(arith, memory, q, hits));
        }
    }
}

proof fn lemma_listed_pairs<T: Fn(Float) -> Vec<u8>>(
    write: T,
    hits: Seq<Hit>,
    texts: Seq<Seq<u8>>,
    bulks: Seq<Seq<u8>>,
)
    requires
        crate::command::vsearch::listed(write, hits, texts, bulks),
    ensures
        pairs_of(write, hits, bulks),
{
    assert forall|i: int| 0 <= i < hits.len() implies bulks[2 * i] == (#[trigger] hits[i]).key
        && exists|t: Vec<u8>| #[trigger]
        call_ensures(write, (hits[i].distance,), t) && t@ == bulks[2 * i + 1] by {
        assert((2 * i) % 2 == 0 && (2 * i) / 2 == i);
        assert((2 * i + 1) % 2 == 1 && (2 * i + 1) / 2 == i);
        assert(crate::command::vsearch::gives_text(write, hits[i].distance, texts[i]));
        let t = choose|t: Vec<u8>| #[trigger]
            call_ensures(write, (hits[i].distance,), t) && t@ == texts[i];
        assert(t@ == bulks[2 * i + 1]);
    }
}

proof fn lemma_nearest_leaves_none_closer<A: Fn(Operation<'_>) -> Float>(
    arith: A,
    memory: Memory,
    q: Seq<Float>,
    k: nat,
    hits: Seq<Hit>,
)
    requires
        index::nearest(arith, memory, q, k, hits),
    ensures
        none_closer(arith, memory, q, hits),
{
    assert forall|key: Seq<u8>| #[trigger]
        memory.entries().contains_key(key) && (forall|i: int|
            0 <= i < hits.len() ==> (#[trigger] hits[i]).key != key) implies exists|d: Float|
     #[trigger]
        metric::gives_distance(arith, memory.metric, q, memory.entries()[key], d) && forall|
            i: int,
        |
            0 <= i < hits.len() ==> (#[trigger] hits[i]).distance.rank() <= d.rank() by {
        if index::hit_keys(hits).contains(key) {
            let i = choose|i: int| 0 <= i < hits.len() && index::hit_keys(hits)[i] == key;
            assert(hits[i].key == key);
        }
        assert(index::left_out(arith, memory, q, key, hits));
    }
}

/// When `VSEARCH` is refused: for numbers that are none or too large, for words
/// behind the first number that are not `EF` and a number, for an index that does
/// not exist, for bytes that are no vector, and for one of another dimension.
pub proof fn law_vsearch_is_refused<
    A: Fn(Operation<'_>) -> Float,
    L: Fn(u64, u64, usize) -> u8,
    T: Fn(Float) -> Vec<u8>,
>(
    arith: A,
    level_of: L,
    write: T,
    persistent: bool,
    names: Seq<Seq<u8>>,
    m: Map<Seq<u8>, Memory>,
    argv: Seq<Seq<u8>>,
    effect: Effect,
    after: Map<Seq<u8>, Memory>,
)
    requires
        served(arith, level_of, write, persistent, names, m, argv, effect, after),
        text::spelled(argv[0], "vsearch"@),
        argv.len() >= 4,
    ensures
        ({
            let k = text::unsigned(argv[3]);
            let ef = text::unsigned(argv[5]);
            let worded = argv.len() == 6 && text::spelled(argv[4], "ef"@);
            let good = k is Some && k->0 <= usize::MAX;
            let wide = ef is Some && ef->0 <= usize::MAX;
            let read = good && (argv.len() == 4 || worded && wide);
            &&& !good || worded && !wide ==> effect == Effect::Reply(
                Reply::Error("ERR value is not an integer or out of range"@),
            )
            &&& good && argv.len() != 4 && !worded ==> effect == Effect::Reply(
                Reply::Error("ERR syntax error"@),
            )
            &&& read && !m.contains_key(argv[1]) ==> effect == Effect::Reply(
                Reply::Error("ERR no such index"@),
            )
            &&& read && m.contains_key(argv[1]) && vector::unpacked(argv[2]) is None ==> effect
                == Effect::Reply(Reply::Error("ERR invalid vector encoding"@))
            &&& read && m.contains_key(argv[1]) && vector::unpacked(argv[2]) is Some
                && vector::unpacked(argv[2])->0.len() != m[argv[1]].dim ==> effect
                == Effect::Reply(
                Reply::Error(
                    "ERR wrong vector dimension: index expects "@ + text::decimal(
                        m[argv[1]].dim,
                    ) + ", got "@ + text::decimal(argv[2].len() / 4),
                ),
            )
        }),
{
    law_six_words_name_the_commands(argv[0]);
    let args = argv.drop_first();
    assert(args[0] == argv[1] && args[1] == argv[2] && args[2] == argv[3]);
    if argv.len() == 6 {
        assert(args[3] == argv[4] && args[4] == argv[5]);
    }
}

/// Without `EF` a search is as wide as with `EF 64`.
pub proof fn law_breadth_is_64_unless_it_is_given<
    A: Fn(Operation<'_>) -> Float,
    L: Fn(u64, u64, usize) -> u8,
    T: Fn(Float) -> Vec<u8>,
>(
    arith: A,
    level_of: L,
    write: T,
    persistent: bool,
    names: Seq<Seq<u8>>,
    m: Map<Seq<u8>, Memory>,
    argv: Seq<Seq<u8>>,
    word: Seq<u8>,
    number: Seq<u8>,
    effect: Effect,
    after: Map<Seq<u8>, Memory>,
)
    requires
        text::spelled(argv[0], "vsearch"@),
        argv.len() == 4,
        text::spelled(word, "ef"@),
        text::unsigned(number) == Some(64nat),
    ensures
        served(arith, level_of, write, persistent, names, m, argv, effect, after) <==> served(
            arith,
            level_of,
            write,
            persistent,
            names,
            m,
            argv.push(word).push(number),
            effect,
            after,
        ),
{
    law_six_words_name_the_commands(argv[0]);
    let more = argv.push(word).push(number);
    let a = argv.drop_first();
    let b = more.drop_first();
    assert(more[0] == argv[0]);
    assert(b[0] == a[0] && b[1] == a[1] && b[2] == a[2] && b[3] == word && b[4] == number);
    assert(crate::command::vsearch::asked(a) == crate::command::vsearch::asked(b));
}

/// Whether the file of a snapshot can hold the indices: every name and every key is
/// short enough for its length to be written down, and so is every vector, and
/// there are few enough of them.
pub open spec fn storable(m: Map<Seq<u8>, Memory>) -> bool {
    &&& m.dom().finite()
    &&& m.len() < 0x1_0000_0000
    &&& forall|name: Seq<u8>| #[trigger]
        m.contains_key(name) ==> {
            &&& name.len() < 0x1_0000_0000
            &&& m[name].entries().len() < 0x1_0000_0000
            &&& 4 * m[name].dim < 0x1_0000_0000
            &&& forall|key: Seq<u8>| #[trigger]
                m[name].entries().contains_key(key) ==> key.len() < 0x1_0000_0000
        }
}

/// `VSAVE` loses nothing. The bytes that it asks to write are a snapshot, and what
/// is recovered from them and a cleared log has the same indices, with the same
/// dimensions, metrics and keys, and each vector as it was held or as the metric
/// prepares it once more. Under a metric that does not normalise, it is the same.
/// There is an id for every vector, so that recovery succeeds.
pub proof fn law_vsave_keeps_every_index<
    A: Fn(Operation<'_>) -> Float,
    L: Fn(u64, u64, usize) -> u8,
    T: Fn(Float) -> Vec<u8>,
>(
    arith: A,
    level_of: L,
    write: T,
    names: Seq<Seq<u8>>,
    m: Map<Seq<u8>, Memory>,
    argv: Seq<Seq<u8>>,
    effect: Effect,
    left: Map<Seq<u8>, Memory>,
    after: Map<Seq<u8>, Memory>,
)
    requires
        float::deterministic(arith),
        sound(m),
        all_savable(m),
        storable(m),
        names.no_duplicates(),
        names.to_set() == m.dom(),
        served(arith, level_of, write, true, names, m, argv, effect, left),
        text::spelled(argv[0], "vsave"@),
        argv.len() == 1,
    ensures
        left == m,
        effect matches Effect::Save(bytes) && snapshot::parsed(bytes) matches Some(blocks) && {
            &&& enough_ids(blocks, wal::records(seq![]))
            &&& recovered(arith, level_of, blocks, wal::records(seq![]), after) ==> {
                &&& contents(after).dom() == contents(m).dom()
                &&& forall|name: Seq<u8>| #[trigger]
                    m.contains_key(name) ==> {
                        let a = contents(after)[name];
                        &&& a.dim == m[name].dim
                        &&& a.metric == m[name].metric
                        &&& a.entries.dom() == m[name].entries().dom()
                        &&& forall|key: Seq<u8>| #[trigger]
                            a.entries.contains_key(key) ==> a.entries[key] == prepared(
                                arith,
                                m[name].metric,
                                m[name].entries()[key],
                            )
                        &&& m[name].metric != Metric::Cosine ==> a.entries == m[name].entries()
                    }
            }
        },
{
    lemma_vsave_writes(arith, level_of, write, names, m, argv, effect, left);
    lemma_storable_fits(names, m);
    let blocks = saved(names, m);
    let bytes = snapshot::layout(blocks);
    snapshot::law_snapshots_round_trip(bytes, blocks);
    codec::lemma_stands_whole(bytes);
    law_saved_registry_finds_ids(names, m);
    if recovered(arith, level_of, blocks, wal::records(seq![]), after) {
        law_saved_registry_is_recovered(arith, level_of, names, m, after);
        let c = contents(m);
        let d = contents(after);
        assert(d.dom() =~= c.dom());
        assert forall|name: Seq<u8>| #[trigger] m.contains_key(name) implies {
            let a = d[name];
            &&& a.dim == m[name].dim
            &&& a.metric == m[name].metric
            &&& a.entries.dom() == m[name].entries().dom()
            &&& forall|key: Seq<u8>| #[trigger]
                a.entries.contains_key(key) ==> a.entries[key] == prepared(
                    arith,
                    m[name].metric,
                    m[name].entries()[key],
                )
            &&& m[name].metric != Metric::Cosine ==> a.entries == m[name].entries()
        } by {
            assert(c.contains_key(name));
            assert(d[name] == reread(arith, c[name]));
            assert(d[name].entries.dom() =~= m[name].entries().dom());
            if m[name].metric != Metric::Cosine {
                assert forall|v: Seq<Float>| prepared(arith, m[name].metric, v) == v by {
                    assert(metric::gives_prepared(arith, m[name].metric, v, v));
                }
                assert(d[name].entries =~= m[name].entries());
            }
        }
    }
}

proof fn lemma_vsave_writes<
    A: Fn(Operation<'_>) -> Float,
    L: Fn(u64, u64, usize) -> u8,
    T: Fn(Float) -> Vec<u8>,
>(
    arith: A,
    level_of: L,
    write: T,
    names: Seq<Seq<u8>>,
    m: Map<Seq<u8>, Memory>,
    argv: Seq<Seq<u8>>,
    effect: Effect,
    left: Map<Seq<u8>, Memory>,
)
    requires
        served(arith, level_of, write, true, names, m, argv, effect, left),
        text::spelled(argv[0], "vsave"@),
        argv.len() == 1,
    ensures
        left == m,
        effect == Effect::Save(snapshot::layout(saved(names, m))),
{
    law_six_words_name_the_commands(argv[0]);
}

proof fn lemma_storable_fits(names: Seq<Seq<u8>>, m: Map<Seq<u8>, Memory>)
    requires
        sound(m),
        storable(m),
        names.no_duplicates(),
        names.to_set() == m.dom(),
    ensures
        snapshot::fits(saved(names, m)),
{
    let blocks = saved(names, m);
    names.unique_seq_to_set();
    assert(blocks.len() < codec::RANGE);
    assert forall|i: int| 0 <= i < blocks.len() implies snapshot::block_fits(
        #[trigger] blocks[i],
    ) by {
        let name = names[i];
        assert(names.to_set().contains(name));
        assert(m.contains_key(name));
        let memory = m[name];
        index::lemma_live_count(memory);
        index::lemma_live_ids(memory.keys);
        let b = blocks[i];
        assert(b == saved_block(name, memory));
        assert forall|j: int| 0 <= j < b.entries.len() implies codec::short(
            (#[trigger] b.entries[j]).0,
        ) && codec::short(b.entries[j].1) by {
            let id = index::live_ids(memory.keys)[j];
            assert(memory.keys[id as int] is Some);
            let key = memory.keys[id as int]->0;
            assert(b.entries[j].0 == key);
            assert(memory.keys.contains(Some(key)));
            assert(memory.entries().contains_key(key));
            assert(memory.vectors[id as int].len() == memory.dim);
            assert(b.entries[j].1 == vector::packed(memory.vectors[id as int]));
        }
    }
}

/// `VSAVE` without a data directory is refused.
pub proof fn law_vsave_needs_a_data_directory<
    A: Fn(Operation<'_>) -> Float,
    L: Fn(u64, u64, usize) -> u8,
    T: Fn(Float) -> Vec<u8>,
>(
    arith: A,
    level_of: L,
    write: T,
    names: Seq<Seq<u8>>,
    m: Map<Seq<u8>, Memory>,
    argv: Seq<Seq<u8>>,
    effect: Effect,
    after: Map<Seq<u8>, Memory>,
)
    requires
        served(arith, level_of, write, false, names, m, argv, effect, after),
        text::spelled(argv[0], "vsave"@),
        argv.len() == 1,
    ensures
        effect == Effect::Reply(
            Reply::Error("ERR persistence not enabled; start with a data dir"@),
        ),
{
    law_six_words_name_the_commands(argv[0]);
}

/// The frame that a request asks to append to the log is read back from it as the
/// mutation that the request made.
pub proof fn law_appended_frame_says_the_mutation(
    outcome: Outcome,
    op: Mutation,
    reply: Reply,
    log: Seq<Seq<u8>>,
)
    requires
        asks(outcome, Effect::Logged(op, reply)),
        op.fits(),
        codec::short(op.encoded()),
        wal::all_short(log),
    ensures
        outcome matches Outcome::Logged { frame, .. } && ({
            let read = wal::records(wal::log_of(log) + frame@);
            &&& read.len() == log.len() + 1
            &&& read.drop_last() == log
            &&& decoded(read.last()) == Some(op)
        }),
{
    let record = op.encoded();
    wal::law_append_adds_one_record(log, record);
    let all = log.push(record);
    wal::law_replay_returns_what_was_appended(all, seq![]);
    assert(wal::log_of(all) + seq![] =~= wal::log_of(all));
    assert(wal::records(seq![]) =~= seq![]);
    assert(all + seq![] =~= all);
    assert(all.drop_last() =~= log);
    law_records_round_trip(record, op);
    codec::lemma_stands_whole(record);
}

/// There is room for every request but a `VADD` that would add to an index which has
/// given away every id.
pub proof fn law_room_runs_out_for_additions_only(m: Map<Seq<u8>, Memory>, argv: Seq<Seq<u8>>)
    ensures
        roomy(m, argv) <==> {
            text::spelled(argv[0], "vadd"@) && argv.len() == 4 && m.contains_key(argv[1])
                && vector::unpacked(argv[3]) is Some && vector::unpacked(argv[3])->0.len()
                == m[argv[1]].dim ==> m[argv[1]].keys.len() < 0x1_0000_0000
        },
{
    law_six_words_name_the_commands(argv[0]);
}

/// What a request asks of the server is what was decided: to send the reply, to
/// append a frame to the log and then to send the reply, or to write the snapshot.
pub proof fn law_outcome_is_what_was_decided(outcome: Outcome, effect: Effect)
    requires
        asks(outcome, effect),
    ensures
        effect matches Effect::Reply(r) ==> (outcome matches Outcome::Reply(v) && says(v, r)),
        effect matches Effect::Logged(_, r) ==> (outcome matches Outcome::Logged { reply, .. }
            && says(reply, r)),
        effect matches Effect::Save(bytes) ==> (outcome matches Outcome::Save { snapshot }
            && snapshot@ == bytes),
{
}

/// A key that was added is there: deleting it then answers `1` and deleting it once
/// more `0`, and in between the index holds what it held before, without the key.
pub proof fn law_added_key_can_be_deleted_once<
    A: Fn(Operation<'_>) -> Float,
    L: Fn(u64, u64, usize) -> u8,
    T: Fn(Float) -> Vec<u8>,
>(
    arith: A,
    level_of: L,
    write: T,
    persistent: bool,
    names: Seq<Seq<u8>>,
    m: Map<Seq<u8>, Memory>,
    vadd: Seq<Seq<u8>>,
    vdel: Seq<Seq<u8>>,
    v: Seq<Float>,
    first: Effect,
    a: Map<Seq<u8>, Memory>,
    second: Effect,
    b: Map<Seq<u8>, Memory>,
    third: Effect,
    c: Map<Seq<u8>, Memory>,
)
    requires
        sound(m),
        sound(a),
        sound(b),
        text::spelled(vadd[0], "vadd"@),
        vadd.len() == 4,
        text::spelled(vdel[0], "vdel"@),
        vdel.len() == 3,
        vdel[1] == vadd[1],
        vdel[2] == vadd[2],
        m.contains_key(vadd[1]),
        vector::unpacked(vadd[3]) == Some(v),
        v.len() == m[vadd[1]].dim,
        served(arith, level_of, write, persistent, names, m, vadd, first, a),
        served(arith, level_of, write, persistent, names, a, vdel, second, b),
        served(arith, level_of, write, persistent, names, b, vdel, third, c),
    ensures
        replied(second) == Some(Reply::Integer(1)),
        replied(third) == Some(Reply::Integer(0)),
        b[vadd[1]].entries() == m[vadd[1]].entries().remove(vadd[2]),
        contents(c) == contents(b),
{
    law_vadd_sets_the_key(arith, level_of, write, persistent, names, m, vadd, first, a, v);
    law_vdel_drops_the_key(arith, level_of, write, persistent, names, a, vdel, second, b);
    law_vdel_drops_the_key(arith, level_of, write, persistent, names, b, vdel, third, c);
    let name = vadd[1];
    let key = vadd[2];
    assert(contents(b)[name] == b[name].contents());
    assert(a[name].entries().dom().contains(key));
    assert(b[name].entries() =~= m[name].entries().remove(key)) by {
        assert forall|k: Seq<u8>| b[name].entries().contains_key(k) <==> m[name].entries().remove(
            key,
        ).contains_key(k) by {
            assert(a[name].entries().dom().contains(k) <==> m[name].entries().dom().insert(
                key,
            ).contains(k));
        }
    }
    assert(b[name].entries().remove(key) =~= b[name].entries());
    assert(contents(c) =~= contents(b)) by {
        assert forall|other: Seq<u8>| #[trigger]
            contents(c).contains_key(other) <==> contents(b).contains_key(other) by {
            if other != name {
                assert(c.contains_key(other) <==> b.contains_key(other));
            }
        }
        assert forall|other: Seq<u8>| #[trigger] contents(c).contains_key(other) implies contents(
            c,
        )[other] == contents(b)[other] by {
            if other != name {
                assert(c.contains_key(other) <==> b.contains_key(other));
            }
        }
    }
}

} // verus!
