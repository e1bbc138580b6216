//! Distance metrics and the distances behind them.
//!
//! Every metric is expressed as a *distance*, where a smaller value means the
//! two vectors are closer. This keeps the search and index code uniform: it
//! always wants the smallest distances, whatever the metric.
//!
//! The numbers are computed by the arithmetic that the caller supplies; this
//! module chooses what is computed and how it is combined into a metric, and
//! handles normalisation.

use vstd::prelude::*;

use crate::text;
use crate::vector::float;
use crate::vector::float::{Float, Operation};

verus! {

/// The bits of one.
pub const ONE: u32 = 0x3F80_0000;

/// How the distance between two vectors is measured.
#[derive(Clone, Copy, Debug, PartialEq, Eq, Structural)]
pub enum Metric {
    /// Cosine distance, `1 - cos(a, b)`. Vectors are L2-normalised on insert,
    /// so at query time this reduces to a single dot product.
    Cosine,
    /// Euclidean (L2) distance.
    L2,
    /// Negative inner product, so that a larger dot product is a smaller
    /// distance. Useful for maximum-inner-product search.
    Dot,
}

impl Metric {
    /// The metric that the bytes name.
    pub open spec fn named(name: Seq<u8>) -> Option<Metric> {
        if text::spelled(name, "cosine"@) {
            Some(Metric::Cosine)
        } else if text::spelled(name, "l2"@) || text::spelled(name, "euclidean"@) {
            Some(Metric::L2)
        } else if text::spelled(name, "dot"@) || text::spelled(name, "ip"@) {
            Some(Metric::Dot)
        } else {
            None
        }
    }

    /// The canonical name of the metric.
    pub open spec fn name(self) -> Seq<char> {
        match self {
            Metric::Cosine => "cosine"@,
            Metric::L2 => "l2"@,
            Metric::Dot => "dot"@,
        }
    }

    /// The byte that stands for the metric on disk.
    pub open spec fn tag(self) -> u8 {
        match self {
            Metric::Cosine => 0,
            Metric::L2 => 1,
            Metric::Dot => 2,
        }
    }

    /// The metric that a byte stands for.
    pub open spec fn tagged(tag: u8) -> Option<Metric> {
        if tag == 0 {
            Some(Metric::Cosine)
        } else if tag == 1 {
            Some(Metric::L2)
        } else if tag == 2 {
            Some(Metric::Dot)
        } else {
            None
        }
    }

    /// Parses a metric name, case-insensitively.
    pub fn parse(name: &str) -> (r: Option<Metric>)
        ensures
            r == Metric::named(vstd::utf8::encode_utf8(name@)),
    {
        Metric::parse_bytes(name.as_bytes())
    }

    /// Parses a metric name given as bytes, case-insensitively.
    pub fn parse_bytes(name: &[u8]) -> (r: Option<Metric>)
        ensures
            r == Metric::named(name@),
    {
        proof {
            reveal_strlit("cosine");
            reveal_strlit("l2");
            reveal_strlit("euclidean");
            reveal_strlit("dot");
            reveal_strlit("ip");
        }
        if text::spells(name, "cosine") {
            Some(Metric::Cosine)
        } else if text::spells(name, "l2") || text::spells(name, "euclidean") {
            Some(Metric::L2)
        } else if text::spells(name, "dot") || text::spells(name, "ip") {
            Some(Metric::Dot)
        } else {
            None
        }
    }

    /// A stable byte tag for on-disk encoding.
    pub fn to_u8(self) -> (r: u8)
        ensures
            r == self.tag(),
    {
        match self {
            Metric::Cosine => 0,
            Metric::L2 => 1,
            Metric::Dot => 2,
        }
    }

    /// The inverse of [`Metric::to_u8`].
    pub fn from_u8(tag: u8) -> (r: Option<Metric>)
        ensures
            r == Metric::tagged(tag),
    {
        match tag {
            0 => Some(Metric::Cosine),
            1 => Some(Metric::L2),
            2 => Some(Metric::Dot),
            _ => None,
        }
    }

    /// The canonical lowercase name of the metric.
    pub fn as_str(self) -> (r: &'static str)
        ensures
            r@ == self.name(),
    {
        match self {
            Metric::Cosine => "cosine",
            Metric::L2 => "l2",
            Metric::Dot => "dot",
        }
    }

    /// Whether vectors should be L2-normalised when stored under this metric.
    pub fn normalizes(self) -> (r: bool)
        ensures
            r == (self == Metric::Cosine),
    {
        matches!(self, Metric::Cosine)
    }

    /// The distance between `a` and `b` under this metric; smaller is closer.
    ///
    /// For [`Metric::Cosine`] both vectors are assumed already normalised.
    pub fn distance<A: Fn(Operation<'_>) -> Float>(
        self,
        a: &[Float],
        b: &[Float],
        arith: &A,
    ) -> (d: Float)
        requires
            a@.len() == b@.len(),
            float::computes(*arith),
        ensures
            gives_distance(*arith, self, a@, b@, d),
    {
        match self {
            Metric::Cosine => {
                let op = Operation::Dot(a, b);
                assert(op.proper());
                let p = arith(op);
                assert(float::gives_dot(*arith, a@, b@, p));
                let op = Operation::Subtract(Float { bits: ONE }, p);
                assert(op.proper());
                arith(op)
            },
            Metric::L2 => {
                let op = Operation::SquaredDistance(a, b);
                assert(op.proper());
                let p = arith(op);
                assert(float::gives_squared_distance(*arith, a@, b@, p));
                let op = Operation::SquareRoot(p);
                assert(op.proper());
                arith(op)
            },
            Metric::Dot => {
                let op = Operation::Dot(a, b);
                assert(op.proper());
                let p = arith(op);
                assert(float::gives_dot(*arith, a@, b@, p));
                p.negate()
            },
        }
    }
}

/// Whether `d` may be computed as the distance between `a` and `b`: `1 - a.b`,
/// the root of the squared distance, or `-(a.b)`.
pub open spec fn gives_distance<A: Fn(Operation<'_>) -> Float>(
    arith: A,
    metric: Metric,
    a: Seq<Float>,
    b: Seq<Float>,
    d: Float,
) -> bool {
    match metric {
        Metric::Cosine => exists|p: Float| #[trigger]
            float::gives_dot(arith, a, b, p) && float::gives_difference(
                arith,
                Float { bits: ONE },
                p,
                d,
            ),
        Metric::L2 => exists|p: Float| #[trigger]
            float::gives_squared_distance(arith, a, b, p) && float::gives_root(arith, p, d),
        Metric::Dot => exists|p: Float| #[trigger]
            float::gives_dot(arith, a, b, p) && d == p.negated(),
    }
}

/// Whether `n` may be computed as the length of `v`: the root of `v.v`.
pub open spec fn gives_norm<A: Fn(Operation<'_>) -> Float>(
    arith: A,
    v: Seq<Float>,
    n: Float,
) -> bool {
    exists|p: Float| #[trigger] float::gives_dot(arith, v, v, p) && float::gives_root(arith, p, n)
}

/// Whether `w` may be computed by scaling `v` to length one: every component
/// divided by the length, if that is above zero, else `v` itself.
pub open spec fn gives_normalized<A: Fn(Operation<'_>) -> Float>(
    arith: A,
    v: Seq<Float>,
    w: Seq<Float>,
) -> bool {
    exists|n: Float| #[trigger]
        gives_norm(arith, v, n) && if (Float { bits: 0 }).below(n) {
            &&& w.len() == v.len()
            &&& forall|i: int|
                0 <= i < v.len() ==> float::gives_quotient(arith, v[i], n, #[trigger] w[i])
        } else {
            w == v
        }
}

/// Whether `w` may be what is stored, or searched for, under a metric for the
/// vector `v`.
pub open spec fn gives_prepared<A: Fn(Operation<'_>) -> Float>(
    arith: A,
    metric: Metric,
    v: Seq<Float>,
    w: Seq<Float>,
) -> bool {
    if metric == Metric::Cosine {
        gives_normalized(arith, v, w)
    } else {
        w == v
    }
}

/// The L2 norm (length) of a vector.
pub fn norm<A: Fn(Operation<'_>) -> Float>(v: &[Float], arith: &A) -> (n: Float)
    requires
        float::computes(*arith),
    ensures
        gives_norm(*arith, v@, n),
{
    let op = Operation::Dot(v, v);
    assert(op.proper());
    let p = arith(op);
    assert(float::gives_dot(*arith, v@, v@, p));
    let op = Operation::SquareRoot(p);
    assert(op.proper());
    arith(op)
}

/// L2-normalises a vector in place. A vector whose length is not above zero is
/// left unchanged.
pub fn normalize<A: Fn(Operation<'_>) -> Float>(v: &mut [Float], arith: &A)
    requires
        float::computes(*arith),
    ensures
        gives_normalized(*arith, old(v)@, final(v)@),
{
    let n = norm(v, arith);
    let zero = Float { bits: 0 };
    if zero.less(n) {
        let mut i: usize = 0;
        while i < v.len()
            invariant
                i <= v@.len(),
                v@.len() == old(v)@.len(),
                float::computes(*arith),
                forall|j: int|
                    0 <= j < i ==> float::gives_quotient(
                        *arith,
                        old(v)@[j],
                        n,
                        #[trigger] v@[j],
                    ),
                forall|j: int| i <= j < v@.len() ==> #[trigger] v@[j] == old(v)@[j],
            decreases v@.len() - i,
        {
            let op = Operation::Divide(v[i], n);
            assert(op.proper());
            let q = arith(op);
            v[i] = q;
            i += 1;
        }
    }
}

/// The vector to store, or to search for, under a metric.
pub fn prepare<A: Fn(Operation<'_>) -> Float>(metric: Metric, v: Vec<Float>, arith: &A) -> (w: Vec<
    Float,
>)
    requires
        float::computes(*arith),
    ensures
        gives_prepared(*arith, metric, v@, w@),
        w@.len() == v@.len(),
{
    let mut w = v;
    if metric.normalizes() {
        normalize(w.as_mut_slice(), arith);
    }
    w
}

/// A metric's tag stands for that metric, and a byte that stands for a metric is
/// its tag.
pub proof fn law_metric_tags_round_trip(metric: Metric, tag: u8)
    ensures
        Metric::tagged(metric.tag()) == Some(metric),
        Metric::tagged(tag) matches Some(m) ==> m.tag() == tag,
{
}

/// A metric's canonical name, in letters of either case, names that metric.
pub proof fn law_metric_names_round_trip(metric: Metric, name: Seq<u8>)
    requires
        text::spelled(name, metric.name()),
    ensures
        Metric::named(name) == Some(metric),
{
    reveal_strlit("cosine");
    reveal_strlit("l2");
    reveal_strlit("euclidean");
    reveal_strlit("dot");
    reveal_strlit("ip");
}

/// Where arithmetic has a single answer to each operation, a vector has a single
/// length, a single normalised form and a single distance to another.
pub proof fn law_deterministic_arithmetic_gives_deterministic_distances<
    A: Fn(Operation<'_>) -> Float,
>(arith: A, metric: Metric, a: Seq<Float>, b: Seq<Float>)
    requires
        float::deterministic(arith),
    ensures
        forall|d: Float, e: Float| #[trigger]
            gives_distance(arith, metric, a, b, d) && #[trigger] gives_distance(
                arith,
                metric,
                a,
                b,
                e,
            ) ==> d == e,
        forall|v: Seq<Float>, w: Seq<Float>| #[trigger]
            gives_prepared(arith, metric, a, v) && #[trigger] gives_prepared(arith, metric, a, w)
                ==> v == w,
{
    assert forall|v: Seq<Float>, w: Seq<Float>| #[trigger]
        gives_prepared(arith, metric, a, v) && #[trigger] gives_prepared(
            arith,
            metric,
            a,
            w,
        ) implies v == w by {
        if metric == Metric::Cosine {
            assert(v =~= w);
        }
    }
}

/// Under the dot metric the vector with the larger product is the closer one.
pub proof fn law_larger_product_is_closer<A: Fn(Operation<'_>) -> Float>(
    arith: A,
    query: Seq<Float>,
    a: Seq<Float>,
    b: Seq<Float>,
    product_a: Float,
    product_b: Float,
    distance_a: Float,
    distance_b: Float,
)
    requires
        float::deterministic(arith),
        float::gives_dot(arith, query, a, product_a),
        float::gives_dot(arith, query, b, product_b),
        gives_distance(arith, Metric::Dot, query, a, distance_a),
        gives_distance(arith, Metric::Dot, query, b, distance_b),
    ensures
        distance_a.below(distance_b) <==> product_b.below(product_a),
{
    let p = choose|p: Float| #[trigger]
        float::gives_dot(arith, query, a, p) && distance_a == p.negated();
    let q = choose|q: Float| #[trigger]
        float::gives_dot(arith, query, b, q) && distance_b == q.negated();
    assert(p == product_a);
    assert(q == product_b);
    assert(p.negated().value() == -p.value() && p.negated().magnitude() == p.magnitude());
    assert(q.negated().value() == -q.value() && q.negated().magnitude() == q.magnitude());
}

/// Whether subtracting a larger number from one gives a smaller difference.
pub open spec fn falls<A: Fn(Operation<'_>) -> Float>(arith: A) -> bool {
    forall|p: Float, q: Float, d: Float, e: Float|
        p.below(q) && #[trigger] call_ensures(
            arith,
            (Operation::Subtract(Float { bits: 0x3F80_0000 }, p),),
            d,
        ) && #[trigger] call_ensures(
            arith,
            (Operation::Subtract(Float { bits: 0x3F80_0000 }, q),),
            e,
        ) ==> e.below(d)
}

/// Whether a larger number has a larger root.
pub open spec fn rises<A: Fn(Operation<'_>) -> Float>(arith: A) -> bool {
    forall|p: Float, q: Float, d: Float, e: Float|
        p.below(q) && #[trigger] call_ensures(arith, (Operation::SquareRoot(p),), d)
            && #[trigger] call_ensures(arith, (Operation::SquareRoot(q),), e) ==> d.below(e)
}

/// The cosine distance is what arithmetic answers for one minus the product of the
/// two vectors, whatever the sign of that product.
pub proof fn law_cosine_distance_is_one_minus_the_product<A: Fn(Operation<'_>) -> Float>(
    arith: A,
    a: &[Float],
    b: &[Float],
    product: Float,
    distance: Float,
)
    requires
        float::deterministic(arith),
        call_ensures(arith, (Operation::Dot(a, b),), product),
        gives_distance(arith, Metric::Cosine, a@, b@, distance),
    ensures
        call_ensures(
            arith,
            (Operation::Subtract(Float { bits: 0x3F80_0000 }, product),),
            distance,
        ),
{
    assert(float::gives_dot(arith, a@, b@, product));
}

/// Under the cosine metric, too, the vector with the larger product is the closer
/// one; in particular one that points the other way is farther than one at a right
/// angle.
pub proof fn law_larger_cosine_is_closer<A: Fn(Operation<'_>) -> Float>(
    arith: A,
    query: &[Float],
    a: &[Float],
    b: &[Float],
    product_a: Float,
    product_b: Float,
    distance_a: Float,
    distance_b: Float,
)
    requires
        float::deterministic(arith),
        falls(arith),
        call_ensures(arith, (Operation::Dot(query, a),), product_a),
        call_ensures(arith, (Operation::Dot(query, b),), product_b),
        gives_distance(arith, Metric::Cosine, query@, a@, distance_a),
        gives_distance(arith, Metric::Cosine, query@, b@, distance_b),
    ensures
        product_a.below(product_b) ==> distance_b.below(distance_a),
        product_a == product_b ==> distance_a == distance_b,
{
    law_cosine_distance_is_one_minus_the_product(arith, query, a, product_a, distance_a);
    law_cosine_distance_is_one_minus_the_product(arith, query, b, product_b, distance_b);
    if product_a == product_b {
        let one = Float { bits: 0x3F80_0000 };
        assert(float::gives_difference(arith, one, product_a, distance_a));
        assert(float::gives_difference(arith, one, product_b, distance_b));
    }
}

/// The Euclidean distance is what arithmetic answers for the root of the squared
/// distance of the two vectors.
pub proof fn law_euclidean_distance_is_the_root<A: Fn(Operation<'_>) -> Float>(
    arith: A,
    a: &[Float],
    b: &[Float],
    square: Float,
    distance: Float,
)
    requires
        float::deterministic(arith),
        call_ensures(arith, (Operation::SquaredDistance(a, b),), square),
        gives_distance(arith, Metric::L2, a@, b@, distance),
    ensures
        call_ensures(arith, (Operation::SquareRoot(square),), distance),
{
    assert(float::gives_squared_distance(arith, a@, b@, square));
}

/// Under the Euclidean metric the vector with the smaller squared distance is the
/// closer one.
pub proof fn law_smaller_square_is_closer<A: Fn(Operation<'_>) -> Float>(
    arith: A,
    query: &[Float],
    a: &[Float],
    b: &[Float],
    square_a: Float,
    square_b: Float,
    distance_a: Float,
    distance_b: Float,
)
    requires
        float::deterministic(arith),
        rises(arith),
        call_ensures(arith, (Operation::SquaredDistance(query, a),), square_a),
        call_ensures(arith, (Operation::SquaredDistance(query, b),), square_b),
        gives_distance(arith, Metric::L2, query@, a@, distance_a),
        gives_distance(arith, Metric::L2, query@, b@, distance_b),
    ensures
        square_a.below(square_b) ==> distance_a.below(distance_b),
{
    law_euclidean_distance_is_the_root(arith, query, a, square_a, distance_a);
    law_euclidean_distance_is_the_root(arith, query, b, square_b, distance_b);
}

/// The distance under the dot metric is the product of the two vectors with its
/// sign bit flipped.
pub proof fn law_dot_distance_is_the_product_negated<A: Fn(Operation<'_>) -> Float>(
    arith: A,
    a: &[Float],
    b: &[Float],
    product: Float,
    distance: Float,
)
    requires
        float::deterministic(arith),
        call_ensures(arith, (Operation::Dot(a, b),), product),
        gives_distance(arith, Metric::Dot, a@, b@, distance),
    ensures
        distance.bits == product.bits ^ 0x8000_0000,
{
    assert(float::gives_dot(arith, a@, b@, product));
    float::law_negation_flips_the_sign_bit(product);
}

/// The length of a vector is what arithmetic answers for the root of its product
/// with itself.
pub proof fn law_length_is_the_root_of_the_square<A: Fn(Operation<'_>) -> Float>(
    arith: A,
    v: &[Float],
    square: Float,
    length: Float,
)
    requires
        float::deterministic(arith),
        call_ensures(arith, (Operation::Dot(v, v),), square),
        gives_norm(arith, v@, length),
    ensures
        call_ensures(arith, (Operation::SquareRoot(square),), length),
{
    assert(float::gives_dot(arith, v@, v@, square));
}

/// What is stored under the cosine metric is the vector with every component
/// divided by the length of the vector, or the vector itself if its length is not
/// above zero. Under the other metrics it is the vector itself.
pub proof fn law_preparing_scales_to_length_one<A: Fn(Operation<'_>) -> Float>(
    arith: A,
    metric: Metric,
    v: &[Float],
    square: Float,
    length: Float,
    w: Seq<Float>,
)
    requires
        float::deterministic(arith),
        call_ensures(arith, (Operation::Dot(v, v),), square),
        call_ensures(arith, (Operation::SquareRoot(square),), length),
        gives_prepared(arith, metric, v@, w),
    ensures
        w.len() == v@.len(),
        metric != Metric::Cosine ==> w == v@,
        metric == Metric::Cosine && !(Float { bits: 0 }).below(length) ==> w == v@,
        metric == Metric::Cosine && (Float { bits: 0 }).below(length) ==> forall|i: int|
            0 <= i < w.len() ==> call_ensures(
                arith,
                (Operation::Divide(v@[i], length),),
                #[trigger] w[i],
            ),
{
    if metric == Metric::Cosine {
        let n = choose|n: Float| #[trigger]
            gives_norm(arith, v@, n) && if (Float { bits: 0 }).below(n) {
                &&& w.len() == v@.len()
                &&& forall|i: int|
                    0 <= i < v@.len() ==> float::gives_quotient(arith, v@[i], n, #[trigger] w[i])
            } else {
                w == v@
            };
        law_length_is_the_root_of_the_square(arith, v, square, n);
        assert(float::gives_root(arith, square, n));
        assert(float::gives_root(arith, square, length));
    }
}

/// The other names that a metric goes by, in letters of either case; and whatever
/// names a metric is one of the five names.
pub proof fn law_metrics_go_by_five_names(name: Seq<u8>)
    ensures
        text::spelled(name, "euclidean"@) ==> Metric::named(name) == Some(Metric::L2),
        text::spelled(name, "ip"@) ==> Metric::named(name) == Some(Metric::Dot),
        Metric::named(name) is Some ==> {
            ||| text::spelled(name, "cosine"@)
            ||| text::spelled(name, "l2"@)
            ||| text::spelled(name, "euclidean"@)
            ||| text::spelled(name, "dot"@)
            ||| text::spelled(name, "ip"@)
        },
{
    reveal_strlit("cosine");
    reveal_strlit("l2");
    reveal_strlit("euclidean");
    reveal_strlit("dot");
    reveal_strlit("ip");
    if text::spelled(name, "ip"@) && text::spelled(name, "l2"@) {
        text::law_bytes_spell_one_word(name, "ip"@, "l2"@);
    }
    assert("ip"@[0] == 'i' && "l2"@[0] == 'l');
}

} // verus!
