//! Two voices that lie far apart: a run over embeddings of two
//! well-separated clusters gives each cluster one speaker.

use vstd::prelude::*;
use crate::cluster::{
    added, best_match, chosen_speaker, closeness, dot, exceeds, founding_profile,
    founds_speaker, ints, is_similar, label_in_run, lemma_dot_of_added,
    lemma_dot_self_nonnegative, lemma_dot_symmetric, lemma_fractions_are_ordered,
    lemma_inner_product_bound, scores, speakers_after, speakers_after_run,
    squared_length, threshold_fraction, updated_profile, ProfileView, MAX_COUNT,
    MAX_DIMENSION, SIMILARITY_ONE,
};
use crate::diarize::{
    clustered_before, effective_limit, first_clusterable, fits, is_clusterable, label_spec,
    lemma_first_clusterable_is_stable, run_dimension, speakers_before,
};

verus! {

/// The cosine similarity of `a` and `b` is at least nine tenths.
pub open spec fn is_near(a: Seq<int>, b: Seq<int>) -> bool {
    dot(a, b) >= 0 && 100 * (dot(a, b) * dot(a, b)) >= 81 * (dot(a, a) * dot(b, b))
}

/// The cosine similarity of `a` and `b` is at most one tenth.
pub open spec fn is_far(a: Seq<int>, b: Seq<int>) -> bool {
    dot(a, b) <= 0 || 100 * (dot(a, b) * dot(a, b)) <= dot(a, a) * dot(b, b)
}

/// The cosine similarity of `a` and `b` is at most one ninth.
pub open spec fn is_apart(a: Seq<int>, b: Seq<int>) -> bool {
    dot(a, b) <= 0 || 81 * (dot(a, b) * dot(a, b)) <= dot(a, a) * dot(b, b)
}

/// Where both numbers are not negative, the greater square has the greater root.
proof fn lemma_square_order(u: int, v: int)
    requires
        u >= 0,
        v >= 0,
        u * u >= v * v,
    ensures
        u >= v,
{
    assert(u >= v) by (nonlinear_arith)
        requires
            u >= 0,
            v >= 0,
            u * u >= v * v,
    ;
}

/// Inequalities between numbers that are not negative multiply.
proof fn lemma_products_order(upper_a: int, lower_a: int, upper_b: int, lower_b: int)
    requires
        upper_a >= lower_a >= 0,
        upper_b >= lower_b >= 0,
    ensures
        upper_a * upper_b >= lower_a * lower_b,
{
    assert(upper_a * upper_b >= lower_a * lower_b) by (nonlinear_arith)
        requires
            upper_a >= lower_a >= 0,
            upper_b >= lower_b >= 0,
    ;
}

/// A vector near two others is near their sum: with all inner products
/// not negative, `100 aS^2 >= 81 aa SS` and `100 ac^2 >= 81 aa cc` give
/// `100 (aS + ac)^2 >= 81 aa (SS + 2 cS + cc)`.
proof fn lemma_near_the_sum(a_s: int, a_c: int, c_s: int, aa: int, ss: int, cc: int)
    requires
        a_s >= 0,
        a_c >= 0,
        c_s >= 0,
        aa >= 0,
        ss >= 0,
        cc >= 0,
        100 * (a_s * a_s) >= 81 * (aa * ss),
        100 * (a_c * a_c) >= 81 * (aa * cc),
        c_s * c_s <= cc * ss,
    ensures
        100 * ((a_s + a_c) * (a_s + a_c)) >= 81 * (aa * (ss + 2 * c_s + cc)),
{
    let x = a_s * a_c;
    assert(x >= 0) by (nonlinear_arith)
        requires
            x == a_s * a_c,
            a_s >= 0,
            a_c >= 0,
    ;
    let upper_a = 100 * (a_s * a_s);
    let lower_a = 81 * (aa * ss);
    let upper_b = 100 * (a_c * a_c);
    let lower_b = 81 * (aa * cc);
    assert(lower_a >= 0 && lower_b >= 0) by (nonlinear_arith)
        requires
            lower_a == 81 * (aa * ss),
            lower_b == 81 * (aa * cc),
            aa >= 0,
            ss >= 0,
            cc >= 0,
    ;
    lemma_products_order(upper_a, lower_a, upper_b, lower_b);
    // (100 x)^2 == upper_a * upper_b
    assert((100 * x) * (100 * x) == upper_a * upper_b) by (nonlinear_arith)
        requires
            x == a_s * a_c,
            upper_a == 100 * (a_s * a_s),
            upper_b == 100 * (a_c * a_c),
    ;
    // lower_a * lower_b == 81^2 aa^2 (ss cc) >= (81 aa c_s)^2
    let v = 81 * (aa * c_s);
    assert(v >= 0) by (nonlinear_arith)
        requires
            v == 81 * (aa * c_s),
            aa >= 0,
            c_s >= 0,
    ;
    let aa2 = aa * aa;
    assert(aa2 >= 0) by (nonlinear_arith)
        requires
            aa2 == aa * aa,
    ;
    assert(lower_a * lower_b == 6561 * (aa2 * (cc * ss))) by (nonlinear_arith)
        requires
            lower_a == 81 * (aa * ss),
            lower_b == 81 * (aa * cc),
            aa2 == aa * aa,
    ;
    assert(v * v == 6561 * (aa2 * (c_s * c_s))) by (nonlinear_arith)
        requires
            v == 81 * (aa * c_s),
            aa2 == aa * aa,
    ;
    assert(aa2 * (c_s * c_s) <= aa2 * (cc * ss)) by (nonlinear_arith)
        requires
            aa2 >= 0,
            c_s * c_s <= cc * ss,
    ;
    assert((100 * x) * (100 * x) >= v * v);
    lemma_square_order(100 * x, v);
    // 100 (a_s + a_c)^2 == upper_a + 200 x + upper_b
    assert(100 * ((a_s + a_c) * (a_s + a_c)) == upper_a + 200 * x + upper_b) by (nonlinear_arith)
        requires
            x == a_s * a_c,
            upper_a == 100 * (a_s * a_s),
            upper_b == 100 * (a_c * a_c),
    ;
    assert(81 * (aa * (ss + 2 * c_s + cc)) == lower_a + 2 * v + lower_b) by (nonlinear_arith)
        requires
            lower_a == 81 * (aa * ss),
            lower_b == 81 * (aa * cc),
            v == 81 * (aa * c_s),
    ;
}

/// A vector apart from a sum and far from a vector that is near the sum is
/// apart from the sum of the two: with `x <= 0` or `81 x^2 <= bb SS`,
/// `y <= 0` or `100 y^2 <= bb cc`, and `100 cS^2 >= 81 cc SS`, either
/// `x + y <= 0` or `81 (x + y)^2 <= bb (SS + 2 cS + cc)`.
proof fn lemma_apart_from_the_sum(x: int, y: int, c_s: int, bb: int, ss: int, cc: int)
    requires
        c_s >= 0,
        bb >= 0,
        ss >= 0,
        cc >= 0,
        x <= 0 || 81 * (x * x) <= bb * ss,
        y <= 0 || 100 * (y * y) <= bb * cc,
        100 * (c_s * c_s) >= 81 * (cc * ss),
    ensures
        x + y <= 0 || 81 * ((x + y) * (x + y)) <= bb * (ss + 2 * c_s + cc),
{
    if x + y > 0 {
        let xp = if x > 0 {
            x
        } else {
            0
        };
        let yp = if y > 0 {
            y
        } else {
            0
        };
        let bs = bb * ss;
        let bc = bb * cc;
        assert(bs >= 0 && bc >= 0) by (nonlinear_arith)
            requires
                bs == bb * ss,
                bc == bb * cc,
                bb >= 0,
                ss >= 0,
                cc >= 0,
        ;
        assert(xp * xp >= 0 && yp * yp >= 0) by (nonlinear_arith);
        assert(81 * (xp * xp) <= bs);
        assert(100 * (yp * yp) <= bc);
        // (x + y)^2 <= (xp + yp)^2
        assert((x + y) * (x + y) <= (xp + yp) * (xp + yp)) by (nonlinear_arith)
            requires
                0 < x + y <= xp + yp,
        ;
        // cross term: 81 xp yp <= bb c_s
        let u = bb * c_s;
        let v = 81 * (xp * yp);
        assert(u >= 0 && v >= 0) by (nonlinear_arith)
            requires
                u == bb * c_s,
                v == 81 * (xp * yp),
                bb >= 0,
                c_s >= 0,
                xp >= 0,
                yp >= 0,
        ;
        let bb2 = bb * bb;
        assert(bb2 >= 0) by (nonlinear_arith)
            requires
                bb2 == bb * bb,
        ;
        // 100 v^2 == (81 xp^2) (100 yp^2) 81 <= 81 bs bc
        lemma_products_order(bs, 81 * (xp * xp), bc, 100 * (yp * yp));
        assert(100 * (v * v) == 81 * ((81 * (xp * xp)) * (100 * (yp * yp)))) by (nonlinear_arith)
            requires
                v == 81 * (xp * yp),
        ;
        assert(bs * bc == bb2 * (cc * ss)) by (nonlinear_arith)
            requires
                bs == bb * ss,
                bc == bb * cc,
                bb2 == bb * bb,
        ;
        // 100 u^2 == bb^2 (100 c_s^2) >= bb^2 81 cc ss
        assert(100 * (u * u) == bb2 * (100 * (c_s * c_s))) by (nonlinear_arith)
            requires
                u == bb * c_s,
                bb2 == bb * bb,
        ;
        assert(bb2 * (100 * (c_s * c_s)) >= bb2 * (81 * (cc * ss))) by (nonlinear_arith)
            requires
                bb2 >= 0,
                100 * (c_s * c_s) >= 81 * (cc * ss),
        ;
        assert(bb2 * (81 * (cc * ss)) == 81 * (bb2 * (cc * ss))) by (nonlinear_arith);
        assert(100 * (u * u) >= 100 * (v * v));
        lemma_square_order(u, v);
        // 81 (xp + yp)^2 == 81 xp^2 + 2 v + 81 yp^2
        assert(81 * ((xp + yp) * (xp + yp)) == 81 * (xp * xp) + 2 * v + 81 * (yp * yp))
            by (nonlinear_arith)
            requires
                v == 81 * (xp * yp),
        ;
        assert(bb * (ss + 2 * c_s + cc) == bs + 2 * u + bc) by (nonlinear_arith)
            requires
                bs == bb * ss,
                bc == bb * cc,
                u == bb * c_s,
        ;
    }
}

/// A run of embeddings of two voices: every embedding has `dimension`
/// components and is not all zero; two embeddings of one voice have a
/// cosine similarity of at least nine tenths, two of different voices one
/// of at most one tenth. `sides[i]` tells the voice of embedding `i`.
pub open spec fn are_two_voices(
    embeddings: Seq<Seq<i16>>,
    sides: Seq<bool>,
    dimension: int,
) -> bool {
    &&& sides.len() == embeddings.len()
    &&& forall|i: int|
        0 <= i < embeddings.len() ==> (#[trigger] embeddings[i]).len() == dimension
            && squared_length(embeddings[i]) > 0
    &&& forall|i: int, j: int|
        0 <= i < embeddings.len() && 0 <= j < embeddings.len() ==> if sides[i] == sides[j] {
            is_near(ints(#[trigger] embeddings[i]), ints(#[trigger] embeddings[j]))
        } else {
            is_far(ints(embeddings[i]), ints(embeddings[j]))
        }
}

/// `sum` is a sum of embeddings of the voice `side`, as far as similarity
/// goes: it is not zero, every embedding of that voice is near it, and
/// every embedding of the other voice is apart from it.
pub open spec fn belongs_to(
    sum: Seq<int>,
    side: bool,
    embeddings: Seq<Seq<i16>>,
    sides: Seq<bool>,
    dimension: int,
) -> bool {
    &&& sum.len() == dimension
    &&& dot(sum, sum) > 0
    &&& forall|i: int|
        0 <= i < embeddings.len() ==> if sides[i] == side {
            is_near(ints(#[trigger] embeddings[i]), sum)
        } else {
            is_apart(ints(embeddings[i]), sum)
        }
}

/// The thresholds that tell two such voices apart: above one ninth and at
/// most nine tenths.
pub open spec fn separates(threshold: int) -> bool {
    111_112 <= threshold <= 900_000
}

/// The squared length of a sum that has taken an embedding in, and the
/// inner product of a vector with it.
proof fn lemma_added_products(a: Seq<int>, sum: Seq<int>, embedding: Seq<i16>)
    requires
        a.len() == sum.len(),
        embedding.len() == sum.len(),
    ensures
        dot(a, added(sum, embedding)) == dot(a, sum) + dot(a, ints(embedding)),
        dot(added(sum, embedding), added(sum, embedding)) == dot(sum, sum) + 2 * dot(
            ints(embedding),
            sum,
        ) + dot(ints(embedding), ints(embedding)),
{
    let n = sum.len() as int;
    let c = ints(embedding);
    let grown = added(sum, embedding);
    lemma_dot_of_added(a, sum, embedding, n);
    lemma_dot_of_added(grown, sum, embedding, n);
    lemma_dot_symmetric(grown, sum, n);
    lemma_dot_of_added(sum, sum, embedding, n);
    lemma_dot_symmetric(sum, c, n);
    lemma_dot_symmetric(grown, c, n);
    lemma_dot_of_added(c, sum, embedding, n);
}

/// Every embedding belongs to its own voice.
pub proof fn lemma_embedding_belongs(
    embeddings: Seq<Seq<i16>>,
    sides: Seq<bool>,
    dimension: int,
    k: int,
)
    requires
        are_two_voices(embeddings, sides, dimension),
        0 <= k < embeddings.len(),
    ensures
        belongs_to(ints(embeddings[k]), sides[k], embeddings, sides, dimension),
{
    let c = ints(embeddings[k]);
    assert(embeddings[k].len() == dimension);
    assert forall|i: int| 0 <= i < embeddings.len() implies if sides[i] == sides[k] {
        is_near(ints(#[trigger] embeddings[i]), c)
    } else {
        is_apart(ints(embeddings[i]), c)
    } by {
        let a = ints(embeddings[i]);
        assert(embeddings[i].len() == dimension);
        if sides[i] != sides[k] {
            assert(is_far(a, c));
            let d = dot(a, c);
            assert(d * d >= 0) by (nonlinear_arith);
        } else {
            assert(is_near(a, c));
        }
    }
}

/// A sum that belongs to a voice still belongs to it when it has taken in
/// one more embedding of that voice.
pub proof fn lemma_sum_still_belongs(
    embeddings: Seq<Seq<i16>>,
    sides: Seq<bool>,
    dimension: int,
    sum: Seq<int>,
    k: int,
)
    requires
        are_two_voices(embeddings, sides, dimension),
        0 <= k < embeddings.len(),
        belongs_to(sum, sides[k], embeddings, sides, dimension),
    ensures
        belongs_to(added(sum, embeddings[k]), sides[k], embeddings, sides, dimension),
{
    let c = ints(embeddings[k]);
    let grown = added(sum, embeddings[k]);
    let n = dimension;
    assert(embeddings[k].len() == dimension);
    let ss = dot(sum, sum);
    let cc = dot(c, c);
    let c_s = dot(c, sum);
    assert(is_near(c, sum));
    lemma_added_products(c, sum, embeddings[k]);
    lemma_inner_product_bound(c, sum, n);
    lemma_dot_self_nonnegative(c, n);
    assert(dot(grown, grown) == ss + 2 * c_s + cc);
    assert forall|i: int| 0 <= i < embeddings.len() implies if sides[i] == sides[k] {
        is_near(ints(#[trigger] embeddings[i]), grown)
    } else {
        is_apart(ints(embeddings[i]), grown)
    } by {
        let a = ints(embeddings[i]);
        assert(embeddings[i].len() == dimension);
        lemma_added_products(a, sum, embeddings[k]);
        lemma_dot_self_nonnegative(a, n);
        let aa = dot(a, a);
        let a_s = dot(a, sum);
        let a_c = dot(a, c);
        assert(dot(a, grown) == a_s + a_c);
        if sides[i] == sides[k] {
            assert(is_near(a, sum));
            assert(is_near(a, c));
            lemma_near_the_sum(a_s, a_c, c_s, aa, ss, cc);
        } else {
            assert(is_apart(a, sum));
            assert(is_far(a, c));
            lemma_apart_from_the_sum(a_s, a_c, c_s, aa, ss, cc);
        }
    }
}

/// An embedding is similar, by a separating threshold, to a sum it is near.
pub proof fn lemma_near_is_similar(embedding: Seq<i16>, sum: Seq<int>, threshold: int)
    requires
        embedding.len() == sum.len(),
        squared_length(embedding) > 0,
        dot(sum, sum) > 0,
        is_near(ints(embedding), sum),
        separates(threshold),
    ensures
        is_similar(embedding, sum, threshold),
{
    let e = ints(embedding);
    let d = dot(e, sum);
    let w = dot(e, e);
    let q = dot(sum, sum);
    let weight = w * q;
    let one: int = SIMILARITY_ONE as int;
    assert(weight > 0) by (nonlinear_arith)
        requires
            weight == w * q,
            w > 0,
            q > 0,
    ;
    let own = closeness(embedding, sum);
    assert(own.num == d * d && own.den == weight);
    let t2 = threshold * threshold;
    assert(0 <= 100 * t2 <= 81 * (one * one)) by (nonlinear_arith)
        requires
            t2 == threshold * threshold,
            0 <= threshold <= 900_000,
            one == 1_000_000,
    ;
    let square = d * d;
    assert((100 * square) * (one * one) >= (81 * weight) * (one * one)) by (nonlinear_arith)
        requires
            100 * square >= 81 * weight,
            one == 1_000_000,
    ;
    assert((81 * (one * one)) * weight >= (100 * t2) * weight) by (nonlinear_arith)
        requires
            81 * (one * one) >= 100 * t2,
            weight > 0,
    ;
    assert((81 * weight) * (one * one) == (81 * (one * one)) * weight) by (nonlinear_arith);
    assert((100 * square) * (one * one) == 100 * (square * (one * one))) by (nonlinear_arith);
    assert((100 * t2) * weight == 100 * (t2 * weight)) by (nonlinear_arith);
    assert(square * (one * one) >= t2 * weight);
}

/// An embedding is not similar, by a separating threshold, to a sum it is
/// apart from.
pub proof fn lemma_apart_is_not_similar(embedding: Seq<i16>, sum: Seq<int>, threshold: int)
    requires
        embedding.len() == sum.len(),
        squared_length(embedding) > 0,
        dot(sum, sum) > 0,
        is_apart(ints(embedding), sum),
        separates(threshold),
    ensures
        !is_similar(embedding, sum, threshold),
{
    let e = ints(embedding);
    let d = dot(e, sum);
    let w = dot(e, e);
    let q = dot(sum, sum);
    let weight = w * q;
    let one: int = SIMILARITY_ONE as int;
    assert(weight > 0) by (nonlinear_arith)
        requires
            weight == w * q,
            w > 0,
            q > 0,
    ;
    let own = closeness(embedding, sum);
    let t2 = threshold * threshold;
    assert(81 * t2 > one * one && t2 > 0) by (nonlinear_arith)
        requires
            t2 == threshold * threshold,
            threshold >= 111_112,
            one == 1_000_000,
    ;
    assert(t2 * weight > 0) by (nonlinear_arith)
        requires
            t2 > 0,
            weight > 0,
    ;
    let square = d * d;
    assert(square >= 0) by (nonlinear_arith)
        requires
            square == d * d,
    ;
    if d <= 0 {
        assert(d == 0 ==> square == 0) by (nonlinear_arith)
            requires
                square == d * d,
        ;
        assert(own.num <= 0);
        assert(own.num * (one * one) <= 0) by (nonlinear_arith)
            requires
                own.num <= 0,
                one == 1_000_000,
        ;
    } else {
        assert(own.num == square);
        assert((81 * square) * (one * one) <= weight * (one * one)) by (nonlinear_arith)
            requires
                81 * square <= weight,
                one == 1_000_000,
        ;
        assert(weight * (one * one) < weight * (81 * t2)) by (nonlinear_arith)
            requires
                one * one < 81 * t2,
                weight > 0,
        ;
        assert((81 * square) * (one * one) == 81 * (square * (one * one))) by (nonlinear_arith);
        assert(weight * (81 * t2) == 81 * (t2 * weight)) by (nonlinear_arith);
        assert(square * (one * one) < t2 * weight);
    }
}

/// The speakers of a run of two voices after `n` embeddings: none before
/// the first embedding; then the voice of the first embedding as speaker
/// 0, and the other voice as speaker 1 once it has been heard.
pub open spec fn voices_are_kept(
    speakers: Seq<ProfileView>,
    embeddings: Seq<Seq<i16>>,
    sides: Seq<bool>,
    dimension: int,
    n: int,
) -> bool {
    if n <= 0 {
        speakers.len() == 0
    } else {
        &&& 1 <= speakers.len() <= 2
        &&& belongs_to(speakers[0].sum, sides[0], embeddings, sides, dimension)
        &&& speakers.len() == 2 ==> belongs_to(
            speakers[1].sum,
            !sides[0],
            embeddings,
            sides,
            dimension,
        )
        &&& speakers.len() == 1 ==> forall|i: int| 0 <= i < n ==> #[trigger] sides[i] == sides[0]
    }
}

/// The speaker that embedding `i` of a run of two voices is to have: 0
/// for the voice of the first embedding, 1 for the other.
pub open spec fn voice_speaker(sides: Seq<bool>, i: int) -> int {
    if sides[i] == sides[0] {
        0
    } else {
        1
    }
}

/// A speaker's sum after an embedding of its own voice still belongs to
/// that voice.
proof fn lemma_profile_still_belongs(
    embeddings: Seq<Seq<i16>>,
    sides: Seq<bool>,
    dimension: int,
    profile: ProfileView,
    k: int,
)
    requires
        are_two_voices(embeddings, sides, dimension),
        0 <= k < embeddings.len(),
        belongs_to(profile.sum, sides[k], embeddings, sides, dimension),
    ensures
        belongs_to(
            updated_profile(profile, embeddings[k]).sum,
            sides[k],
            embeddings,
            sides,
            dimension,
        ),
{
    if profile.count < MAX_COUNT {
        lemma_sum_still_belongs(embeddings, sides, dimension, profile.sum, k);
    }
}

/// One step of a run of two voices: the embedding is given the speaker of
/// its voice, and the speakers still are the two voices.
pub proof fn lemma_two_voices_step(
    embeddings: Seq<Seq<i16>>,
    sides: Seq<bool>,
    dimension: int,
    speakers: Seq<ProfileView>,
    n: int,
    max_speakers: int,
    threshold: int,
)
    requires
        are_two_voices(embeddings, sides, dimension),
        0 <= n < embeddings.len(),
        voices_are_kept(speakers, embeddings, sides, dimension, n),
        max_speakers >= 2,
        separates(threshold),
    ensures
        chosen_speaker(embeddings[n], speakers, max_speakers, threshold) == voice_speaker(sides, n),
        voices_are_kept(
            speakers_after(embeddings[n], speakers, max_speakers, threshold),
            embeddings,
            sides,
            dimension,
            n + 1,
        ),
{
    let e = embeddings[n];
    let limit = threshold_fraction(threshold);
    let after = speakers_after(e, speakers, max_speakers, threshold);
    assert(e.len() == dimension && squared_length(e) > 0);
    if n == 0 {
        lemma_embedding_belongs(embeddings, sides, dimension, 0);
        assert(after == speakers.push(founding_profile(e)));
        assert(after[0].sum == ints(e));
    } else {
        let all = scores(e, speakers);
        let first = closeness(e, speakers[0].sum);
        assert(all[0] == first);
        assert(first.den > 0);
        assert(limit.den > 0) by (nonlinear_arith)
            requires
                limit.den == SIMILARITY_ONE * SIMILARITY_ONE,
                SIMILARITY_ONE == 1_000_000,
        ;
        assert(belongs_to(speakers[0].sum, sides[0], embeddings, sides, dimension));
        if speakers.len() == 1 {
            assert(best_match(all) == 0);
            if sides[n] == sides[0] {
                assert(is_near(ints(e), speakers[0].sum));
                lemma_near_is_similar(e, speakers[0].sum, threshold);
                assert(!founds_speaker(e, speakers, max_speakers, threshold));
                lemma_profile_still_belongs(embeddings, sides, dimension, speakers[0], n);
                assert(after == speakers.update(0, updated_profile(speakers[0], e)));
                assert(after[0] == updated_profile(speakers[0], e));
                assert forall|i: int| 0 <= i < n + 1 implies #[trigger] sides[i] == sides[0] by {}
            } else {
                assert(is_apart(ints(e), speakers[0].sum));
                lemma_apart_is_not_similar(e, speakers[0].sum, threshold);
                assert(founds_speaker(e, speakers, max_speakers, threshold));
                lemma_embedding_belongs(embeddings, sides, dimension, n);
                assert(after == speakers.push(founding_profile(e)));
                assert(after[0] == speakers[0]);
                assert(after[1].sum == ints(e));
                assert(sides[n] == !sides[0]);
            }
        } else {
            let second = closeness(e, speakers[1].sum);
            assert(all[1] == second);
            assert(second.den > 0);
            assert(all.drop_last().len() == 1);
            assert(all.drop_last()[0] == first);
            assert(best_match(all.drop_last()) == 0);
            assert(all.last() == second);
            assert(belongs_to(speakers[1].sum, !sides[0], embeddings, sides, dimension));
            if sides[n] == sides[0] {
                assert(is_near(ints(e), speakers[0].sum));
                assert(is_apart(ints(e), speakers[1].sum));
                lemma_near_is_similar(e, speakers[0].sum, threshold);
                lemma_apart_is_not_similar(e, speakers[1].sum, threshold);
                // first >= limit > second
                lemma_fractions_are_ordered(first, limit, second);
                assert(exceeds(first, second));
                assert(!exceeds(second, first));
                assert(best_match(all) == 0);
                assert(!founds_speaker(e, speakers, max_speakers, threshold));
                lemma_profile_still_belongs(embeddings, sides, dimension, speakers[0], n);
                assert(after == speakers.update(0, updated_profile(speakers[0], e)));
                assert(after[0] == updated_profile(speakers[0], e));
                assert(after[1] == speakers[1]);
            } else {
                assert(sides[n] == !sides[0]);
                assert(is_apart(ints(e), speakers[0].sum));
                assert(is_near(ints(e), speakers[1].sum));
                lemma_near_is_similar(e, speakers[1].sum, threshold);
                lemma_apart_is_not_similar(e, speakers[0].sum, threshold);
                // second >= limit > first
                lemma_fractions_are_ordered(second, limit, first);
                assert(exceeds(second, first));
                assert(best_match(all) == 1);
                assert(!founds_speaker(e, speakers, max_speakers, threshold));
                lemma_profile_still_belongs(embeddings, sides, dimension, speakers[1], n);
                assert(after == speakers.update(1, updated_profile(speakers[1], e)));
                assert(after[1] == updated_profile(speakers[1], e));
                assert(after[0] == speakers[0]);
            }
        }
    }
}

/// After any number of embeddings of a run of two voices, the speakers are
/// the two voices.
pub proof fn lemma_two_voices_are_kept(
    embeddings: Seq<Seq<i16>>,
    sides: Seq<bool>,
    dimension: int,
    max_speakers: int,
    threshold: int,
    n: int,
)
    requires
        are_two_voices(embeddings, sides, dimension),
        0 <= n <= embeddings.len(),
        max_speakers >= 2,
        separates(threshold),
    ensures
        voices_are_kept(
            speakers_after_run(embeddings.take(n), Seq::empty(), max_speakers, threshold),
            embeddings,
            sides,
            dimension,
            n,
        ),
    decreases n,
{
    if n > 0 {
        lemma_two_voices_are_kept(embeddings, sides, dimension, max_speakers, threshold, n - 1);
        let taken = embeddings.take(n);
        assert(taken.drop_last() =~= embeddings.take(n - 1));
        assert(taken.last() == embeddings[n - 1]);
        lemma_two_voices_step(
            embeddings,
            sides,
            dimension,
            speakers_after_run(embeddings.take(n - 1), Seq::empty(), max_speakers, threshold),
            n - 1,
            max_speakers,
            threshold,
        );
    }
}

/// Two voices that lie far apart keep their speakers: in a run over
/// embeddings of two voices, in any order, with room for two speakers and
/// a threshold above one ninth and at most nine tenths, every embedding of
/// the voice heard first is given speaker 0 and every embedding of the
/// other voice speaker 1.
pub proof fn lemma_two_voices_two_speakers(
    embeddings: Seq<Seq<i16>>,
    sides: Seq<bool>,
    dimension: int,
    max_speakers: int,
    threshold: int,
)
    requires
        are_two_voices(embeddings, sides, dimension),
        max_speakers >= 2,
        separates(threshold),
    ensures
        forall|i: int|
            0 <= i < embeddings.len() ==> #[trigger] label_in_run(
                embeddings,
                i,
                max_speakers,
                threshold,
            ) == voice_speaker(sides, i),
{
    assert forall|i: int| 0 <= i < embeddings.len() implies #[trigger] label_in_run(
        embeddings,
        i,
        max_speakers,
        threshold,
    ) == voice_speaker(sides, i) by {
        lemma_two_voices_are_kept(embeddings, sides, dimension, max_speakers, threshold, i);
        lemma_two_voices_step(
            embeddings,
            sides,
            dimension,
            speakers_after_run(embeddings.take(i), Seq::empty(), max_speakers, threshold),
            i,
            max_speakers,
            threshold,
        );
    }
}

/// The embeddings of regions that all have one.
pub open spec fn embedded(embeddings: Seq<Option<Vec<i16>>>) -> Seq<Seq<i16>> {
    Seq::new(embeddings.len(), |i: int| embeddings[i]->Some_0@)
}

/// Where every region has an embedding of the run's dimension, all of them
/// take part in clustering.
proof fn lemma_all_are_clustered(embeddings: Seq<Option<Vec<i16>>>, dimension: int, n: int)
    requires
        0 <= n <= embeddings.len(),
        forall|i: int| 0 <= i < embeddings.len() ==> fits(#[trigger] embeddings[i], dimension),
    ensures
        clustered_before(embeddings, dimension, n) == embedded(embeddings).take(n),
    decreases n,
{
    if n > 0 {
        lemma_all_are_clustered(embeddings, dimension, n - 1);
        assert(fits(embeddings[n - 1], dimension));
        assert(embedded(embeddings).take(n - 1).push(embeddings[n - 1]->Some_0@) =~= embedded(
            embeddings,
        ).take(n));
    } else {
        assert(embedded(embeddings).take(0) =~= Seq::<Seq<i16>>::empty());
    }
}

/// Two voices that lie far apart are told apart. Let every region have an
/// embedding, let the embeddings be those of two voices (a cosine
/// similarity of at least nine tenths within a voice, of at most one tenth
/// across), in any order; let there be room for two speakers and let the
/// threshold be above one ninth and at most nine tenths. Then every region
/// has a speaker: 0 for the voice of the first region, 1 for the other.
pub proof fn lemma_two_voices_are_told_apart(
    embeddings: Seq<Option<Vec<i16>>>,
    sides: Seq<bool>,
    dimension: int,
    max_speakers: int,
    threshold: int,
)
    requires
        dimension <= MAX_DIMENSION,
        forall|i: int| 0 <= i < embeddings.len() ==> (#[trigger] embeddings[i]) is Some,
        are_two_voices(embedded(embeddings), sides, dimension),
        max_speakers >= 2,
        separates(threshold),
    ensures
        forall|i: int|
            0 <= i < embeddings.len() ==> #[trigger] label_spec(
                embeddings,
                i,
                max_speakers,
                threshold,
            ) == Some(voice_speaker(sides, i) as i32),
{
    let plain = embedded(embeddings);
    let limit = effective_limit(max_speakers);
    assert forall|i: int| 0 <= i < embeddings.len() implies fits(
        #[trigger] embeddings[i],
        dimension,
    ) by {
        assert(plain[i].len() == dimension);
    }
    assert forall|i: int| 0 <= i < embeddings.len() implies #[trigger] label_spec(
        embeddings,
        i,
        max_speakers,
        threshold,
    ) == Some(voice_speaker(sides, i) as i32) by {
        assert(fits(embeddings[0], dimension));
        assert(is_clusterable(embeddings[0]));
        assert(embeddings.take(0) =~= Seq::<Option<Vec<i16>>>::empty());
        assert(first_clusterable(embeddings.take(0)) == 0);
        lemma_first_clusterable_is_stable(embeddings, 0);
        assert(run_dimension(embeddings) == dimension);
        assert(fits(embeddings[i], dimension));
        lemma_all_are_clustered(embeddings, dimension, i);
        assert(speakers_before(embeddings, i, max_speakers, threshold) == speakers_after_run(
            plain.take(i),
            Seq::empty(),
            limit,
            threshold,
        ));
        lemma_two_voices_two_speakers(plain, sides, dimension, limit, threshold);
        assert(label_in_run(plain, i, limit, threshold) == voice_speaker(sides, i));
        assert(plain[i] == embeddings[i]->Some_0@);
    }
}

} // verus!
