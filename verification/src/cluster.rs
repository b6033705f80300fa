//! Speaker clustering: each embedding is given the identity of the most
//! similar known speaker, or founds a new one while the registry has room.
//!
//! Embeddings are vectors of signed 16-bit fixed-point components. A
//! speaker is known by the sum of the embeddings assigned to it and their
//! number: the centroid is their mean, and the cosine similarity to the
//! mean is that to the sum. Similarities are compared exactly, as
//! fractions; a threshold is given in units of `1 / SIMILARITY_ONE`.

use vstd::prelude::*;
use vstd::set_lib::{lemma_int_range, lemma_len_subset, set_int_range};
use crate::audio::div_toward_zero;

verus! {

/// Identity of a speaker: its position in the registry, in order of creation.
pub type SpeakerId = usize;

/// What the embedding capability makes of a speech region: a vector of
/// fixed-point components whose direction tells the voice.
pub type Embedding = Vec<i16>;

/// The threshold that stands for a similarity of one.
pub const SIMILARITY_ONE: i64 = 1_000_000;

/// Largest number of components an embedding may have.
///
/// A component of an embedding is at most `2^15` in size and one of a sum
/// of `MAX_COUNT` embeddings at most `2^35`. With up to `2^13` components
/// the inner product of an embedding and a sum is then at most `2^63` in
/// size, its square at most `2^126`, and so is the product of the two
/// squared lengths (`2^43` and `2^83`): both sides of a similarity fit
/// 128 bits, and two similarities are compared through products of 256
/// bits. A longer embedding is reported as an error where a run meets it.
pub const MAX_DIMENSION: usize = 8192;

/// Largest number of embeddings that a speaker's sum takes in. A speaker
/// that has been given this many keeps its centroid from then on: the
/// sums must stay within the sizes that `MAX_DIMENSION` counts on, and the
/// two limits are chosen together.
pub const MAX_COUNT: u64 = 0x10_0000;

/// Default for the largest number of speakers.
pub const DEFAULT_MAX_SPEAKERS: usize = 6;

/// Default for the similarity an embedding needs to join a known speaker: one half.
pub const DEFAULT_SIMILARITY_THRESHOLD: i64 = 500_000;

/// `2^128`.
pub open spec fn two_to_128() -> int {
    0x1_0000_0000_0000_0000_0000_0000_0000_0000int
}

/// The product of two 128-bit numbers in two 128-bit halves, the upper first.
pub fn mul_wide(a: u128, b: u128) -> (halves: (u128, u128))
    ensures
        halves.0 * two_to_128() + halves.1 == a * b,
{
    let a1: u128 = a / 0x1_0000_0000_0000_0000;
    let a0: u128 = a % 0x1_0000_0000_0000_0000;
    let b1: u128 = b / 0x1_0000_0000_0000_0000;
    let b0: u128 = b % 0x1_0000_0000_0000_0000;
    proof {
        lemma_limb_product(a0 as int, b0 as int);
        lemma_limb_product(a0 as int, b1 as int);
        lemma_limb_product(a1 as int, b0 as int);
        lemma_limb_product(a1 as int, b1 as int);
    }
    let low_low: u128 = a0 * b0;
    let low_high: u128 = a0 * b1;
    let high_low: u128 = a1 * b0;
    let high_high: u128 = a1 * b1;
    let carry: u128 = low_low / 0x1_0000_0000_0000_0000 + low_high % 0x1_0000_0000_0000_0000 + high_low
        % 0x1_0000_0000_0000_0000;
    let lo: u128 = (carry % 0x1_0000_0000_0000_0000) * 0x1_0000_0000_0000_0000 + low_low
        % 0x1_0000_0000_0000_0000;
    let hi: u128 = high_high + low_high / 0x1_0000_0000_0000_0000 + high_low / 0x1_0000_0000_0000_0000 + carry
        / 0x1_0000_0000_0000_0000;
    proof {
        let limb: int = 0x1_0000_0000_0000_0000;
        assert(a * b == (high_high * limb + high_low + low_high) * limb + low_low) by (nonlinear_arith)
            requires
                a == a1 * limb + a0,
                b == b1 * limb + b0,
                low_low == a0 * b0,
                low_high == a0 * b1,
                high_low == a1 * b0,
                high_high == a1 * b1,
        ;
    }
    (hi, lo)
}

/// The product of two numbers below `2^64` is at most `(2^64 - 1)^2`.
proof fn lemma_limb_product(x: int, y: int)
    requires
        0 <= x < 0x1_0000_0000_0000_0000,
        0 <= y < 0x1_0000_0000_0000_0000,
    ensures
        0 <= x * y <= 0xffff_ffff_ffff_fffe_0000_0000_0000_0001,
{
    assert(0 <= x * y <= 0xffff_ffff_ffff_ffff * 0xffff_ffff_ffff_ffff) by (nonlinear_arith)
        requires
            0 <= x <= 0xffff_ffff_ffff_ffff,
            0 <= y <= 0xffff_ffff_ffff_ffff,
    ;
}

/// Whether `a * b < c * d`.
pub fn product_is_less(a: u128, b: u128, c: u128, d: u128) -> (less: bool)
    ensures
        less == (a * b < c * d),
{
    let (left_hi, left_lo) = mul_wide(a, b);
    let (right_hi, right_lo) = mul_wide(c, d);
    left_hi < right_hi || (left_hi == right_hi && left_lo < right_lo)
}

/// A fraction with a positive denominator.
pub struct Fraction {
    pub num: int,
    pub den: int,
}

/// `x > y`, for fractions with positive denominators.
pub open spec fn exceeds(x: Fraction, y: Fraction) -> bool {
    x.num * y.den > y.num * x.den
}

/// `x >= y`, for fractions with positive denominators.
pub open spec fn reaches(x: Fraction, y: Fraction) -> bool {
    x.num * y.den >= y.num * x.den
}

/// The square of `v` with the sign of `v`.
pub open spec fn signed_square(v: int) -> int {
    if v >= 0 {
        v * v
    } else {
        -(v * v)
    }
}

/// The components of an embedding as integers.
pub open spec fn ints(embedding: Seq<i16>) -> Seq<int> {
    Seq::new(embedding.len(), |k: int| embedding[k] as int)
}

/// Sum of the products of the first `n` components of `a` and `b`.
pub open spec fn dot_upto(a: Seq<int>, b: Seq<int>, n: int) -> int
    decreases n,
{
    if n <= 0 {
        0
    } else {
        dot_upto(a, b, n - 1) + a[n - 1] * b[n - 1]
    }
}

/// Inner product of two vectors of the same length.
pub open spec fn dot(a: Seq<int>, b: Seq<int>) -> int {
    dot_upto(a, b, a.len() as int)
}

/// The squared length of an embedding; zero for the embedding that is all zero.
pub open spec fn squared_length(embedding: Seq<i16>) -> int {
    dot(ints(embedding), ints(embedding))
}

/// How close an embedding is to a sum of embeddings: the square of their
/// cosine similarity with the sign of the similarity, as a fraction. It is
/// zero where either vector is all zero.
///
/// The order of these fractions is the order of the cosine similarities,
/// and the cosine to a sum is the cosine to the mean.
pub open spec fn closeness(embedding: Seq<i16>, sum: Seq<int>) -> Fraction {
    let e = ints(embedding);
    let weight = dot(e, e) * dot(sum, sum);
    if weight <= 0 {
        Fraction { num: 0, den: 1 }
    } else {
        Fraction { num: signed_square(dot(e, sum)), den: weight }
    }
}

/// A threshold in units of `1 / SIMILARITY_ONE`, on the scale of `closeness`.
pub open spec fn threshold_fraction(threshold: int) -> Fraction {
    Fraction { num: signed_square(threshold), den: SIMILARITY_ONE * SIMILARITY_ONE }
}

/// Whether the cosine similarity of `embedding` and `sum` is at least
/// `threshold / SIMILARITY_ONE`.
pub open spec fn is_similar(embedding: Seq<i16>, sum: Seq<int>, threshold: int) -> bool {
    reaches(closeness(embedding, sum), threshold_fraction(threshold))
}

/// A known speaker as contracts see it: the sum of the embeddings
/// assigned to it, and how many there are in the sum.
pub struct ProfileView {
    pub sum: Seq<int>,
    pub count: nat,
}

/// The centroid of a speaker: the mean of its embeddings, each component
/// rounded toward zero.
pub open spec fn centroid_spec(profile: ProfileView) -> Seq<i16> {
    Seq::new(
        profile.sum.len(),
        |k: int| div_toward_zero(profile.sum[k], profile.count as int) as i16,
    )
}

/// How close `embedding` is to each speaker.
pub open spec fn scores(embedding: Seq<i16>, speakers: Seq<ProfileView>) -> Seq<Fraction> {
    Seq::new(speakers.len(), |i: int| closeness(embedding, speakers[i].sum))
}

/// Index of the highest score; among equal scores the lowest index.
pub open spec fn best_match(scores: Seq<Fraction>) -> int
    decreases scores.len(),
{
    if scores.len() <= 1 {
        0
    } else {
        let before = best_match(scores.drop_last());
        if exceeds(scores.last(), scores[before]) {
            scores.len() - 1
        } else {
            before
        }
    }
}

/// Whether `embedding` founds a new speaker: there is room, and no known
/// speaker is similar enough.
pub open spec fn founds_speaker(
    embedding: Seq<i16>,
    speakers: Seq<ProfileView>,
    max_speakers: int,
    threshold: int,
) -> bool {
    let s = scores(embedding, speakers);
    speakers.len() < max_speakers && (speakers.len() == 0 || !reaches(
        s[best_match(s)],
        threshold_fraction(threshold),
    ))
}

/// The speaker that `embedding` is assigned to.
///
/// With room in the registry: the best match if its similarity reaches the
/// threshold, else a new speaker. With the registry full: the best match,
/// whatever its similarity. With no speaker and no room: speaker 0.
pub open spec fn chosen_speaker(
    embedding: Seq<i16>,
    speakers: Seq<ProfileView>,
    max_speakers: int,
    threshold: int,
) -> int {
    if founds_speaker(embedding, speakers, max_speakers, threshold) {
        speakers.len() as int
    } else if speakers.len() == 0 {
        0
    } else {
        best_match(scores(embedding, speakers))
    }
}

/// `sum` with `embedding` added to it, component by component.
pub open spec fn added(sum: Seq<int>, embedding: Seq<i16>) -> Seq<int> {
    Seq::new(sum.len(), |k: int| sum[k] + embedding[k])
}

/// The profile of a speaker after `embedding` was assigned to it: the
/// embedding is added to the sum and counted, so that the centroid is the
/// mean of all embeddings assigned. A sum of `MAX_COUNT` embeddings takes
/// no more.
pub open spec fn updated_profile(profile: ProfileView, embedding: Seq<i16>) -> ProfileView {
    if profile.count < MAX_COUNT {
        ProfileView { sum: added(profile.sum, embedding), count: profile.count + 1 }
    } else {
        profile
    }
}

/// The profile of a speaker that `embedding` founds.
pub open spec fn founding_profile(embedding: Seq<i16>) -> ProfileView {
    ProfileView { sum: ints(embedding), count: 1 }
}

/// The speakers after `embedding` was assigned.
pub open spec fn speakers_after(
    embedding: Seq<i16>,
    speakers: Seq<ProfileView>,
    max_speakers: int,
    threshold: int,
) -> Seq<ProfileView> {
    if founds_speaker(embedding, speakers, max_speakers, threshold) {
        speakers.push(founding_profile(embedding))
    } else if speakers.len() == 0 {
        speakers
    } else {
        let id = best_match(scores(embedding, speakers));
        speakers.update(id, updated_profile(speakers[id], embedding))
    }
}

/// A sum of `count` embeddings of `dimension` components.
pub open spec fn profile_well_formed(profile: ProfileView, dimension: int) -> bool {
    &&& profile.sum.len() == dimension
    &&& 1 <= profile.count <= MAX_COUNT
    &&& forall|k: int|
        0 <= k < profile.sum.len() ==> -32768 * profile.count <= #[trigger] profile.sum[k] <= 32767
            * profile.count
}

/// Every speaker is a sum of embeddings of `dimension` components.
pub open spec fn profiles_well_formed(speakers: Seq<ProfileView>, dimension: int) -> bool {
    forall|i: int| 0 <= i < speakers.len() ==> profile_well_formed(#[trigger] speakers[i], dimension)
}

/// A known speaker.
pub struct SpeakerProfile {
    pub sum: Vec<i64>,
    pub count: u64,
}

impl SpeakerProfile {
    pub open spec fn view(&self) -> ProfileView {
        ProfileView {
            sum: Seq::new(self.sum@.len(), |k: int| self.sum@[k] as int),
            count: self.count as nat,
        }
    }
}

/// The speakers known so far in one run, in order of creation.
pub struct SpeakerRegistry {
    speakers: Vec<SpeakerProfile>,
    dimension: usize,
}

impl View for SpeakerRegistry {
    type V = Seq<ProfileView>;

    closed spec fn view(&self) -> Seq<ProfileView> {
        Seq::new(self.speakers@.len(), |i: int| self.speakers@[i].view())
    }
}

/// How close an embedding is to a speaker, as the machine holds it: a
/// fraction whose numerator has its sign apart.
struct Closeness {
    negative: bool,
    num: u128,
    den: u128,
}

impl Closeness {
    spec fn fraction(&self) -> Fraction {
        Fraction {
            num: if self.negative {
                -(self.num as int)
            } else {
                self.num as int
            },
            den: self.den as int,
        }
    }

    /// Whether `self` is greater than `other`.
    fn is_above(&self, other: &Closeness) -> (greater: bool)
        ensures
            greater == exceeds(self.fraction(), other.fraction()),
    {
        proof {
            lemma_product_nonnegative(self.num as int, other.den as int);
            lemma_product_nonnegative(other.num as int, self.den as int);
            assert((-(self.num as int)) * (other.den as int) == -(self.num as int * (
            other.den as int))) by (nonlinear_arith);
            assert((-(other.num as int)) * (self.den as int) == -(other.num as int * (
            self.den as int))) by (nonlinear_arith);
        }
        if self.negative {
            if other.negative {
                // -a * d > -c * b, that is a * d < c * b
                product_is_less(self.num, other.den, other.num, self.den)
            } else {
                false
            }
        } else {
            if other.negative {
                // a * d > -c * b unless both products are zero
                let left_is_zero: bool = self.num == 0 || other.den == 0;
                let right_is_zero: bool = other.num == 0 || self.den == 0;
                proof {
                    lemma_product_is_zero(self.num as int, other.den as int);
                    lemma_product_is_zero(other.num as int, self.den as int);
                }
                !(left_is_zero && right_is_zero)
            } else {
                product_is_less(other.num, self.den, self.num, other.den)
            }
        }
    }
}

/// The product of two numbers that are not negative is not negative.
proof fn lemma_product_nonnegative(x: int, y: int)
    requires
        x >= 0,
        y >= 0,
    ensures
        x * y >= 0,
{
    assert(x * y >= 0) by (nonlinear_arith)
        requires
            x >= 0,
            y >= 0,
    ;
}

/// A product is zero exactly where a factor is.
proof fn lemma_product_is_zero(x: int, y: int)
    ensures
        x * y == 0 <==> x == 0 || y == 0,
{
    assert(x * y == 0 <==> x == 0 || y == 0) by (nonlinear_arith);
}

/// A threshold on the scale of `closeness`, as the machine holds it.
fn threshold_closeness(threshold: i64) -> (t: Closeness)
    ensures
        t.fraction() == threshold_fraction(threshold as int),
        t.den > 0,
{
    let size: u128 = if threshold < 0 {
        (-(threshold as i128)) as u128
    } else {
        threshold as u128
    };
    assert(size * size <= 0x8000_0000_0000_0000 * 0x8000_0000_0000_0000) by (nonlinear_arith)
        requires
            size <= 0x8000_0000_0000_0000,
    ;
    assert(size * size == threshold * threshold) by (nonlinear_arith)
        requires
            size == threshold || size == -threshold,
    ;
    Closeness { negative: threshold < 0, num: size * size, den: 1_000_000_000_000 }
}

/// A partial inner product is bounded by the bounds of the components.
pub proof fn lemma_dot_bounds(a: Seq<int>, b: Seq<int>, n: int, bound_a: int, bound_b: int)
    requires
        0 <= n <= a.len(),
        n <= b.len(),
        bound_a >= 0,
        bound_b >= 0,
        forall|k: int| 0 <= k < n ==> -bound_a <= #[trigger] a[k] <= bound_a,
        forall|k: int| 0 <= k < n ==> -bound_b <= #[trigger] b[k] <= bound_b,
    ensures
        -(n * (bound_a * bound_b)) <= dot_upto(a, b, n) <= n * (bound_a * bound_b),
    decreases n,
{
    if n > 0 {
        lemma_dot_bounds(a, b, n - 1, bound_a, bound_b);
        let x = a[n - 1];
        let y = b[n - 1];
        assert(-(bound_a * bound_b) <= x * y <= bound_a * bound_b) by (nonlinear_arith)
            requires
                -bound_a <= x <= bound_a,
                -bound_b <= y <= bound_b,
        ;
        assert(n * (bound_a * bound_b) == (n - 1) * (bound_a * bound_b) + bound_a * bound_b)
            by (nonlinear_arith);
    } else {
        assert(0 * (bound_a * bound_b) == 0);
    }
}

/// The inner product of a vector with itself is not negative.
pub proof fn lemma_dot_self_nonnegative(a: Seq<int>, n: int)
    requires
        0 <= n <= a.len(),
    ensures
        dot_upto(a, a, n) >= 0,
    decreases n,
{
    if n > 0 {
        lemma_dot_self_nonnegative(a, n - 1);
        let x = a[n - 1];
        assert(x * x >= 0) by (nonlinear_arith);
    }
}

/// The inner product does not depend on the order of its arguments.
pub proof fn lemma_dot_symmetric(a: Seq<int>, b: Seq<int>, n: int)
    ensures
        dot_upto(a, b, n) == dot_upto(b, a, n),
    decreases n,
{
    if n > 0 {
        lemma_dot_symmetric(a, b, n - 1);
        assert(a[n - 1] * b[n - 1] == b[n - 1] * a[n - 1]) by (nonlinear_arith);
    }
}

/// The inner product with a sum is the sum of the inner products.
pub proof fn lemma_dot_of_added(a: Seq<int>, sum: Seq<int>, embedding: Seq<i16>, n: int)
    requires
        0 <= n <= sum.len(),
        n <= embedding.len(),
    ensures
        dot_upto(a, added(sum, embedding), n) == dot_upto(a, sum, n) + dot_upto(
            a,
            ints(embedding),
            n,
        ),
    decreases n,
{
    if n > 0 {
        lemma_dot_of_added(a, sum, embedding, n - 1);
        let x = a[n - 1];
        let s = sum[n - 1];
        let e = embedding[n - 1] as int;
        assert(x * (s + e) == x * s + x * e) by (nonlinear_arith);
    }
}

/// Twice a product is at most the sum of the two squares it stems from,
/// each weighted by the other factor's norm: for `d * d <= a * b`,
/// `2 * d * x * y <= a * y * y + b * x * x`.
proof fn lemma_weighted_mean_inequality(d: int, a: int, b: int, x: int, y: int)
    requires
        a >= 0,
        b >= 0,
        d * d <= a * b,
    ensures
        2 * d * x * y <= a * y * y + b * x * x,
{
    let p = a * y * y;
    let q = b * x * x;
    let t = 2 * d * x * y;
    assert(p >= 0 && q >= 0) by (nonlinear_arith)
        requires
            p == a * y * y,
            q == b * x * x,
            a >= 0,
            b >= 0,
    ;
    let xy2 = (x * y) * (x * y);
    assert(xy2 >= 0) by (nonlinear_arith)
        requires
            xy2 == (x * y) * (x * y),
    ;
    assert(t * t == 4 * (d * d) * xy2) by (nonlinear_arith)
        requires
            t == 2 * d * x * y,
            xy2 == (x * y) * (x * y),
    ;
    assert(4 * (d * d) * xy2 <= 4 * (a * b) * xy2) by (nonlinear_arith)
        requires
            d * d <= a * b,
            xy2 >= 0,
    ;
    assert(4 * (a * b) * xy2 == 4 * p * q) by (nonlinear_arith)
        requires
            p == a * y * y,
            q == b * x * x,
            xy2 == (x * y) * (x * y),
    ;
    assert(4 * p * q <= (p + q) * (p + q)) by (nonlinear_arith);
    assert(t <= p + q) by (nonlinear_arith)
        requires
            t * t <= (p + q) * (p + q),
            p + q >= 0,
    ;
}

/// The square of an inner product is at most the product of the two
/// vectors' inner products with themselves.
pub proof fn lemma_inner_product_bound(a: Seq<int>, b: Seq<int>, n: int)
    requires
        0 <= n <= a.len(),
        n <= b.len(),
    ensures
        dot_upto(a, b, n) * dot_upto(a, b, n) <= dot_upto(a, a, n) * dot_upto(b, b, n),
    decreases n,
{
    if n > 0 {
        lemma_inner_product_bound(a, b, n - 1);
        lemma_dot_self_nonnegative(a, n - 1);
        lemma_dot_self_nonnegative(b, n - 1);
        let d = dot_upto(a, b, n - 1);
        let p = dot_upto(a, a, n - 1);
        let q = dot_upto(b, b, n - 1);
        let x = a[n - 1];
        let y = b[n - 1];
        lemma_weighted_mean_inequality(d, p, q, x, y);
        let u = x * y;
        let xx = x * x;
        let yy = y * y;
        assert((d + u) * (d + u) == d * d + 2 * (d * u) + u * u) by (nonlinear_arith);
        assert((p + xx) * (q + yy) == p * q + p * yy + xx * q + xx * yy) by (nonlinear_arith);
        assert(xx * yy == u * u) by (nonlinear_arith)
            requires
                u == x * y,
                xx == x * x,
                yy == y * y,
        ;
        assert(2 * d * x * y == 2 * (d * u)) by (nonlinear_arith)
            requires
                u == x * y,
        ;
        assert(p * y * y == p * yy) by (nonlinear_arith)
            requires
                yy == y * y,
        ;
        assert(q * x * x == xx * q) by (nonlinear_arith)
            requires
                xx == x * x,
        ;
    } else {
        assert(0int * 0int <= 0int * 0int);
    }
}

/// The denominator of a closeness is positive.
pub proof fn lemma_closeness_is_a_fraction(embedding: Seq<i16>, sum: Seq<int>)
    ensures
        closeness(embedding, sum).den > 0,
{
}

/// Among fractions with positive denominators, what is at least something
/// greater is greater, and what is greater than something at least as
/// great is greater.
pub proof fn lemma_fractions_are_ordered(x: Fraction, y: Fraction, z: Fraction)
    requires
        x.den > 0,
        y.den > 0,
        z.den > 0,
    ensures
        reaches(x, y) && exceeds(y, z) ==> exceeds(x, z),
        exceeds(x, y) && reaches(y, z) ==> exceeds(x, z),
        reaches(x, y) && reaches(y, z) ==> reaches(x, z),
{
    let a = x.num;
    let b = x.den;
    let c = y.num;
    let d = y.den;
    let e = z.num;
    let f = z.den;
    if reaches(x, y) && exceeds(y, z) {
        assert((a * d) * f >= (c * b) * f) by (nonlinear_arith)
            requires
                a * d >= c * b,
                f > 0,
        ;
        assert((c * f) * b > (e * d) * b) by (nonlinear_arith)
            requires
                c * f > e * d,
                b > 0,
        ;
        assert((a * f) * d > (e * b) * d) by (nonlinear_arith)
            requires
                (a * d) * f >= (c * b) * f,
                (c * f) * b > (e * d) * b,
        ;
        assert(a * f > e * b) by (nonlinear_arith)
            requires
                (a * f) * d > (e * b) * d,
                d > 0,
        ;
    }
    if exceeds(x, y) && reaches(y, z) {
        assert((a * d) * f > (c * b) * f) by (nonlinear_arith)
            requires
                a * d > c * b,
                f > 0,
        ;
        assert((c * f) * b >= (e * d) * b) by (nonlinear_arith)
            requires
                c * f >= e * d,
                b > 0,
        ;
        assert((a * f) * d > (e * b) * d) by (nonlinear_arith)
            requires
                (a * d) * f > (c * b) * f,
                (c * f) * b >= (e * d) * b,
        ;
        assert(a * f > e * b) by (nonlinear_arith)
            requires
                (a * f) * d > (e * b) * d,
                d > 0,
        ;
    }
    if reaches(x, y) && reaches(y, z) {
        assert((a * d) * f >= (c * b) * f) by (nonlinear_arith)
            requires
                a * d >= c * b,
                f > 0,
        ;
        assert((c * f) * b >= (e * d) * b) by (nonlinear_arith)
            requires
                c * f >= e * d,
                b > 0,
        ;
        assert((a * f) * d >= (e * b) * d) by (nonlinear_arith)
            requires
                (a * d) * f >= (c * b) * f,
                (c * f) * b >= (e * d) * b,
        ;
        assert(a * f >= e * b) by (nonlinear_arith)
            requires
                (a * f) * d >= (e * b) * d,
                d > 0,
        ;
    }
}

/// Whether every fraction has a positive denominator.
pub open spec fn are_fractions(scores: Seq<Fraction>) -> bool {
    forall|i: int| 0 <= i < scores.len() ==> (#[trigger] scores[i]).den > 0
}

/// The best match is a valid index, no score is higher, and every score
/// before it is lower.
pub proof fn lemma_best_match(scores: Seq<Fraction>)
    requires
        scores.len() > 0,
        are_fractions(scores),
    ensures
        0 <= best_match(scores) < scores.len(),
        forall|i: int|
            0 <= i < scores.len() ==> reaches(scores[best_match(scores)], #[trigger] scores[i]),
        forall|i: int|
            0 <= i < best_match(scores) ==> exceeds(
                scores[best_match(scores)],
                #[trigger] scores[i],
            ),
    decreases scores.len(),
{
    if scores.len() > 1 {
        let front = scores.drop_last();
        assert(are_fractions(front)) by {
            assert forall|i: int| 0 <= i < front.len() implies (#[trigger] front[i]).den > 0 by {
                assert(front[i] == scores[i]);
            }
        }
        lemma_best_match(front);
        let before = best_match(front);
        let best = best_match(scores);
        assert(scores[before] == front[before]);
        assert forall|i: int| 0 <= i < scores.len() implies reaches(
            scores[best],
            #[trigger] scores[i],
        ) by {
            if i < front.len() {
                assert(front[i] == scores[i]);
                assert(reaches(front[before], front[i]));
                if best != before {
                    lemma_fractions_are_ordered(scores[best], scores[before], scores[i]);
                }
            }
        }
        assert forall|i: int| 0 <= i < best implies exceeds(scores[best], #[trigger] scores[i]) by {
            assert(front[i] == scores[i]);
            if best != before {
                assert(reaches(front[before], front[i]));
                lemma_fractions_are_ordered(scores[best], scores[before], scores[i]);
            }
        }
    }
}

/// The scores of an embedding are fractions.
pub proof fn lemma_scores_are_fractions(embedding: Seq<i16>, speakers: Seq<ProfileView>)
    ensures
        are_fractions(scores(embedding, speakers)),
{
    assert forall|i: int| 0 <= i < scores(embedding, speakers).len() implies (#[trigger] scores(
        embedding,
        speakers,
    )[i]).den > 0 by {
        lemma_closeness_is_a_fraction(embedding, speakers[i].sum);
    }
}

/// An embedding is no less close to a sum that has taken it in than it was
/// to the sum before.
pub proof fn lemma_absorbing_brings_closer(embedding: Seq<i16>, sum: Seq<int>)
    requires
        sum.len() == embedding.len(),
    ensures
        reaches(closeness(embedding, added(sum, embedding)), closeness(embedding, sum)),
{
    let e = ints(embedding);
    let n = embedding.len() as int;
    let grown = added(sum, embedding);
    let d = dot(e, sum);
    let q = dot(sum, sum);
    let w = dot(e, e);
    let d2 = dot(e, grown);
    let q2 = dot(grown, grown);
    lemma_dot_self_nonnegative(e, n);
    lemma_dot_self_nonnegative(sum, n);
    lemma_dot_self_nonnegative(grown, n);
    lemma_inner_product_bound(e, sum, n);
    lemma_inner_product_bound(e, grown, n);
    // d2 == d + w
    lemma_dot_of_added(e, sum, embedding, n);
    assert(d2 == d + w);
    // q2 == q + 2 d + w
    lemma_dot_of_added(grown, sum, embedding, n);
    lemma_dot_symmetric(grown, sum, n);
    lemma_dot_of_added(sum, sum, embedding, n);
    lemma_dot_symmetric(sum, e, n);
    lemma_dot_symmetric(grown, e, n);
    assert(q2 == q + 2 * d + w);
    let before = closeness(embedding, sum);
    let after = closeness(embedding, grown);
    assert(w * q >= 0 && w * q2 >= 0) by (nonlinear_arith)
        requires
            w >= 0,
            q >= 0,
            q2 >= 0,
    ;
    if w == 0 {
        assert(w * q == 0 && w * q2 == 0) by (nonlinear_arith)
            requires
                w == 0,
        ;
    } else if q == 0 {
        assert(w * q == 0) by (nonlinear_arith)
            requires
                q == 0,
        ;
        assert(d == 0) by (nonlinear_arith)
            requires
                d * d <= w * q,
                w * q == 0,
        ;
        assert(before.num == 0);
        assert(d2 * d2 >= 0) by (nonlinear_arith);
        assert(after.num >= 0);
        assert(after.num * 1 >= 0 * after.den);
    } else if q2 == 0 {
        assert(w * q2 == 0) by (nonlinear_arith)
            requires
                q2 == 0,
        ;
        assert(d2 == 0) by (nonlinear_arith)
            requires
                d2 * d2 <= w * q2,
                w * q2 == 0,
        ;
        assert(d < 0);
        assert(w * q > 0) by (nonlinear_arith)
            requires
                w > 0,
                q > 0,
        ;
        assert(d * d >= 0) by (nonlinear_arith);
        assert(before.num <= 0);
        assert(0 * before.den >= before.num * 1);
    } else {
        assert(w * q > 0 && w * q2 > 0) by (nonlinear_arith)
            requires
                w > 0,
                q > 0,
                q2 > 0,
        ;
        let gap = w * q - d * d;
        assert(gap >= 0);
        // (d + w)^2 * q - d^2 * (q + 2 d + w) == (2 d + w) * (w q - d^2)
        assert((d + w) * (d + w) * q - (d * d) * (q + 2 * d + w) == (2 * d + w) * gap)
            by (nonlinear_arith)
            requires
                gap == w * q - d * d,
        ;
        lemma_signed_squares_compare(d, d2, q, q2, w, gap);
        let left = signed_square(d2) * q;
        let right = signed_square(d) * q2;
        assert(signed_square(d2) * (w * q) >= signed_square(d) * (w * q2)) by (nonlinear_arith)
            requires
                left >= right,
                left == signed_square(d2) * q,
                right == signed_square(d) * q2,
                w > 0,
        ;
    }
}

/// With `d2 == d + w` and `q2 == q + 2 d + w`, where `w q - d^2` is not
/// negative: `signed_square(d2) * q >= signed_square(d) * q2`.
proof fn lemma_signed_squares_compare(d: int, d2: int, q: int, q2: int, w: int, gap: int)
    requires
        d2 == d + w,
        q2 == q + 2 * d + w,
        w > 0,
        q > 0,
        q2 > 0,
        gap >= 0,
        (d + w) * (d + w) * q - (d * d) * (q + 2 * d + w) == (2 * d + w) * gap,
    ensures
        signed_square(d2) * q >= signed_square(d) * q2,
{
    let square = d * d;
    let square2 = d2 * d2;
    assert(square >= 0 && square2 >= 0) by (nonlinear_arith)
        requires
            square == d * d,
            square2 == d2 * d2,
    ;
    assert(square2 * q - square * q2 == (2 * d + w) * gap) by (nonlinear_arith)
        requires
            square == d * d,
            square2 == (d + w) * (d + w),
            q2 == q + 2 * d + w,
            (d + w) * (d + w) * q - (d * d) * (q + 2 * d + w) == (2 * d + w) * gap,
    ;
    if d >= 0 {
        assert((2 * d + w) * gap >= 0) by (nonlinear_arith)
            requires
                d >= 0,
                w > 0,
                gap >= 0,
        ;
    } else if d2 >= 0 {
        assert(square2 * q >= 0) by (nonlinear_arith)
            requires
                square2 >= 0,
                q > 0,
        ;
        assert((-square) * q2 <= 0) by (nonlinear_arith)
            requires
                square >= 0,
                q2 > 0,
        ;
    } else {
        assert((2 * d + w) * gap <= 0) by (nonlinear_arith)
            requires
                d < 0,
                d + w < 0,
                gap >= 0,
        ;
        assert((-square2) * q >= (-square) * q2) by (nonlinear_arith)
            requires
                square2 * q - square * q2 <= 0,
        ;
    }
}

/// An embedding that is not all zero is as close to itself as can be: it
/// reaches every threshold of at most one.
pub proof fn lemma_closeness_to_itself(embedding: Seq<i16>, threshold: int)
    requires
        squared_length(embedding) > 0,
        threshold <= SIMILARITY_ONE,
    ensures
        is_similar(embedding, ints(embedding), threshold),
{
    let w = squared_length(embedding);
    let own = closeness(embedding, ints(embedding));
    assert(w * w > 0) by (nonlinear_arith)
        requires
            w > 0,
    ;
    assert(own.num == w * w && own.den == w * w);
    let t = signed_square(threshold);
    let one: int = SIMILARITY_ONE as int;
    if threshold >= 0 {
        assert(threshold * threshold <= one * one) by (nonlinear_arith)
            requires
                0 <= threshold <= one,
        ;
    } else {
        assert(threshold * threshold >= 0) by (nonlinear_arith);
        assert(one * one >= 0) by (nonlinear_arith);
    }
    assert(t <= one * one);
    assert((w * w) * (one * one) >= t * (w * w)) by (nonlinear_arith)
        requires
            t <= one * one,
            w * w > 0,
    ;
}

impl SpeakerRegistry {
    /// Number of components of every embedding and sum.
    pub closed spec fn dimension(&self) -> nat {
        self.dimension as nat
    }

    /// The registry's invariant.
    pub closed spec fn well_formed(&self) -> bool {
        &&& self.dimension <= MAX_DIMENSION
        &&& profiles_well_formed(self@, self.dimension as int)
    }

    /// What the invariant says of the speakers.
    pub proof fn lemma_speakers_are_well_formed(&self)
        requires
            self.well_formed(),
        ensures
            profiles_well_formed(self@, self.dimension() as int),
            self.dimension() <= MAX_DIMENSION,
    {
    }

    /// An empty registry for embeddings of `dimension` components.
    pub fn new(dimension: usize) -> (registry: SpeakerRegistry)
        requires
            dimension <= MAX_DIMENSION,
        ensures
            registry.well_formed(),
            registry@.len() == 0,
            registry.dimension() == dimension,
    {
        SpeakerRegistry { speakers: Vec::new(), dimension }
    }

    /// Number of known speakers.
    pub fn len(&self) -> (n: usize)
        ensures
            n == self@.len(),
    {
        self.speakers.len()
    }

    /// Number of components of every embedding and sum.
    pub fn embedding_dimension(&self) -> (d: usize)
        ensures
            d == self.dimension(),
    {
        self.dimension
    }

    /// Number of embeddings in the sum of speaker `id`.
    pub fn count(&self, id: SpeakerId) -> (n: u64)
        requires
            id < self@.len(),
        ensures
            n == self@[id as int].count,
    {
        self.speakers[id].count
    }

    /// The sum of the embeddings assigned to speaker `id`.
    pub fn sum(&self, id: SpeakerId) -> (sum: Vec<i64>)
        requires
            id < self@.len(),
        ensures
            sum@.len() == self@[id as int].sum.len(),
            forall|k: int| 0 <= k < sum@.len() ==> sum@[k] == self@[id as int].sum[k],
    {
        assert(self@[id as int] == self.speakers@[id as int].view());
        self.speakers[id].sum.clone()
    }

    /// Centroid of speaker `id`: the mean of the embeddings assigned to
    /// it, each component rounded toward zero.
    pub fn centroid(&self, id: SpeakerId) -> (c: Vec<i16>)
        requires
            self.well_formed(),
            id < self@.len(),
        ensures
            c@ == centroid_spec(self@[id as int]),
    {
        let count: i64 = self.speakers[id].count as i64;
        let len: usize = self.speakers[id].sum.len();
        let mut c: Vec<i16> = Vec::new();
        let mut k: usize = 0;
        let ghost profile = self@[id as int];
        assert(profile == self.speakers@[id as int].view());
        assert(profile_well_formed(profile, self.dimension as int));
        while k < len
            invariant
                id < self.speakers.len(),
                len == self.speakers@[id as int].sum@.len(),
                k <= len,
                count == profile.count,
                profile == self.speakers@[id as int].view(),
                profile_well_formed(profile, self.dimension as int),
                c.len() == k,
                forall|j: int| 0 <= j < k ==> c[j] == centroid_spec(profile)[j],
            decreases len - k,
        {
            let s: i64 = self.speakers[id].sum[k];
            proof {
                assert(profile.sum[k as int] == s);
                crate::audio::lemma_mean_in_range(s as int, count as int, count as int);
            }
            let mean: i64 = s / count;
            c.push(mean as i16);
            k = k + 1;
        }
        assert(c@ =~= centroid_spec(profile));
        c
    }

    /// How close `embedding` is to speaker `id`, where `norm` is the
    /// squared length of `embedding`.
    fn closeness_to(&self, embedding: &Vec<i16>, norm: u64, id: usize) -> (score: Closeness)
        requires
            self.well_formed(),
            embedding.len() == self.dimension(),
            id < self@.len(),
            norm == squared_length(embedding@),
        ensures
            score.fraction() == closeness(embedding@, self@[id as int].sum),
            score.den > 0,
    {
        let dim: usize = self.dimension;
        let ghost profile = self@[id as int];
        let ghost e = ints(embedding@);
        assert(profile == self.speakers@[id as int].view());
        assert(profile_well_formed(profile, dim as int));
        let mut d: i128 = 0;
        let mut q: u128 = 0;
        let mut k: usize = 0;
        proof {
            assert forall|j: int| 0 <= j < dim implies -0x8_0000_0000 <= #[trigger] profile.sum[j]
                <= 0x8_0000_0000 by {
                assert(-32768 * profile.count >= -32768 * 0x10_0000) by (nonlinear_arith)
                    requires
                        profile.count <= 0x10_0000,
                ;
                assert(32767 * profile.count <= 32768 * 0x10_0000) by (nonlinear_arith)
                    requires
                        profile.count <= 0x10_0000,
                ;
            }
        }
        while k < dim
            invariant
                k <= dim,
                dim <= MAX_DIMENSION,
                dim == embedding.len(),
                id < self.speakers.len(),
                dim == self.speakers@[id as int].sum@.len(),
                profile == self.speakers@[id as int].view(),
                e == ints(embedding@),
                forall|j: int|
                    0 <= j < dim ==> -0x8_0000_0000 <= #[trigger] profile.sum[j] <= 0x8_0000_0000,
                d == dot_upto(e, profile.sum, k as int),
                q == dot_upto(profile.sum, profile.sum, k as int),
            decreases dim - k,
        {
            let x: i128 = embedding[k] as i128;
            let s: i128 = self.speakers[id].sum[k] as i128;
            proof {
                assert(profile.sum[k as int] == s);
                assert(e[k as int] == x);
                lemma_dot_bounds(e, profile.sum, k as int, 32768, 0x8_0000_0000);
                lemma_dot_bounds(profile.sum, profile.sum, k as int, 0x8_0000_0000, 0x8_0000_0000);
                lemma_dot_self_nonnegative(profile.sum, k as int);
                assert(k * (32768 * 0x8_0000_0000) <= 8192 * (32768 * 0x8_0000_0000))
                    by (nonlinear_arith)
                    requires
                        k <= 8192,
                ;
                assert(k * (0x8_0000_0000 * 0x8_0000_0000) <= 8192 * (0x8_0000_0000
                    * 0x8_0000_0000)) by (nonlinear_arith)
                    requires
                        k <= 8192,
                ;
                assert(-(32768 * 0x8_0000_0000) <= x * s <= 32768 * 0x8_0000_0000)
                    by (nonlinear_arith)
                    requires
                        -32768 <= x <= 32768,
                        -0x8_0000_0000 <= s <= 0x8_0000_0000,
                ;
                assert(0 <= s * s <= 0x8_0000_0000 * 0x8_0000_0000) by (nonlinear_arith)
                    requires
                        -0x8_0000_0000 <= s <= 0x8_0000_0000,
                ;
            }
            d = d + x * s;
            q = q + (s * s) as u128;
            k = k + 1;
        }
        proof {
            lemma_dot_bounds(e, profile.sum, dim as int, 32768, 0x8_0000_0000);
            lemma_dot_bounds(profile.sum, profile.sum, dim as int, 0x8_0000_0000, 0x8_0000_0000);
            lemma_dot_bounds(e, e, dim as int, 32768, 32768);
            lemma_dot_self_nonnegative(profile.sum, dim as int);
            lemma_dot_self_nonnegative(e, dim as int);
            assert(dim * (32768 * 0x8_0000_0000) <= 8192 * (32768 * 0x8_0000_0000))
                by (nonlinear_arith)
                requires
                    dim <= 8192,
            ;
            assert(dim * (0x8_0000_0000 * 0x8_0000_0000) <= 8192 * (0x8_0000_0000
                * 0x8_0000_0000)) by (nonlinear_arith)
                requires
                    dim <= 8192,
            ;
            assert(dim * (32768 * 32768) <= 8192 * (32768 * 32768)) by (nonlinear_arith)
                requires
                    dim <= 8192,
            ;
        }
        // |d| <= 2^63, q <= 2^83, norm <= 2^43
        assert(norm * q <= 0x800_0000_0000 * 0x8_0000_0000_0000_0000_0000) by (nonlinear_arith)
            requires
                0 <= norm <= 0x800_0000_0000,
                0 <= q <= 0x8_0000_0000_0000_0000_0000,
        ;
        let weight: u128 = (norm as u128) * q;
        if weight == 0 {
            return Closeness { negative: false, num: 0, den: 1 };
        }
        let size: u128 = if d < 0 {
            (-d) as u128
        } else {
            d as u128
        };
        assert(size * size <= 0x8000_0000_0000_0000 * 0x8000_0000_0000_0000) by (nonlinear_arith)
            requires
                size <= 0x8000_0000_0000_0000,
        ;
        assert(size * size == d * d) by (nonlinear_arith)
            requires
                size == d || size == -d,
        ;
        Closeness { negative: d < 0, num: size * size, den: weight }
    }

    /// The known speaker most similar to `embedding`; among equally
    /// similar speakers the one created first.
    pub fn best_speaker_match(&self, embedding: &Vec<i16>) -> (best: SpeakerId)
        requires
            self.well_formed(),
            embedding.len() == self.dimension(),
            self@.len() > 0,
        ensures
            best == best_match(scores(embedding@, self@)),
            best < self@.len(),
    {
        let norm: u64 = squared_length_of(embedding);
        let found = self.best_scored(embedding, norm);
        found.0
    }

    /// The known speaker most similar to `embedding`, with its closeness.
    fn best_scored(&self, embedding: &Vec<i16>, norm: u64) -> (found: (usize, Closeness))
        requires
            self.well_formed(),
            embedding.len() == self.dimension(),
            self@.len() > 0,
            norm == squared_length(embedding@),
        ensures
            found.0 == best_match(scores(embedding@, self@)),
            found.0 < self@.len(),
            found.1.fraction() == scores(embedding@, self@)[found.0 as int],
            found.1.den > 0,
    {
        let n: usize = self.speakers.len();
        let ghost all = scores(embedding@, self@);
        let mut best: usize = 0;
        let mut best_score: Closeness = self.closeness_to(embedding, norm, 0);
        let mut i: usize = 1;
        assert(all.take(1).len() == 1);
        while i < n
            invariant
                1 <= i <= n,
                n == self.speakers.len(),
                n == self@.len(),
                self.well_formed(),
                embedding.len() == self.dimension(),
                norm == squared_length(embedding@),
                all == scores(embedding@, self@),
                best == best_match(all.take(i as int)),
                best < i,
                best_score.fraction() == all[best as int],
                best_score.den > 0,
            decreases n - i,
        {
            let score: Closeness = self.closeness_to(embedding, norm, i);
            proof {
                let grown = all.take(i + 1);
                assert(grown.drop_last() =~= all.take(i as int));
                assert(grown.last() == all[i as int]);
                assert(grown[best as int] == all[best as int]);
            }
            if score.is_above(&best_score) {
                best = i;
                best_score = score;
            }
            i = i + 1;
        }
        assert(all.take(n as int) =~= all);
        (best, best_score)
    }

    /// Adds `embedding` to the sum of speaker `id` and counts it.
    fn absorb(&mut self, id: usize, embedding: &Vec<i16>)
        requires
            old(self).well_formed(),
            id < old(self)@.len(),
            embedding.len() == old(self).dimension(),
        ensures
            final(self).well_formed(),
            final(self).dimension() == old(self).dimension(),
            final(self)@ == old(self)@.update(
                id as int,
                updated_profile(old(self)@[id as int], embedding@),
            ),
    {
        let ghost before = self@;
        let ghost profile = before[id as int];
        assert(profile == self.speakers@[id as int].view());
        assert(profile_well_formed(profile, self.dimension as int));
        let count: u64 = self.speakers[id].count;
        if count >= MAX_COUNT {
            assert(self@ =~= before.update(id as int, updated_profile(profile, embedding@)));
            return ;
        }
        let dim: usize = self.dimension;
        let mut sum: Vec<i64> = Vec::new();
        let mut k: usize = 0;
        while k < dim
            invariant
                k <= dim,
                id < self.speakers.len(),
                dim == self.speakers@[id as int].sum@.len(),
                dim == embedding.len(),
                profile == self.speakers@[id as int].view(),
                profile_well_formed(profile, dim as int),
                profile.count == count,
                count < MAX_COUNT,
                sum.len() == k,
                forall|j: int| 0 <= j < k ==> sum[j] == added(profile.sum, embedding@)[j],
            decreases dim - k,
        {
            let s: i64 = self.speakers[id].sum[k];
            let e: i64 = embedding[k] as i64;
            proof {
                assert(profile.sum[k as int] == s);
                assert(-32768 * count >= -32768 * 0x10_0000) by (nonlinear_arith)
                    requires
                        count <= 0x10_0000,
                ;
                assert(32767 * count <= 32768 * 0x10_0000) by (nonlinear_arith)
                    requires
                        count <= 0x10_0000,
                ;
            }
            sum.push(s + e);
            k = k + 1;
        }
        let grown = SpeakerProfile { sum, count: count + 1 };
        assert(grown.view().sum =~= added(profile.sum, embedding@));
        assert(grown.view() == updated_profile(profile, embedding@));
        proof {
            assert forall|j: int| 0 <= j < grown.view().sum.len() implies -32768 * (count + 1)
                <= #[trigger] grown.view().sum[j] <= 32767 * (count + 1) by {
                assert(-32768 * count <= profile.sum[j] <= 32767 * count);
            }
            assert(profile_well_formed(grown.view(), dim as int));
        }
        self.speakers.set(id, grown);
        assert(self@ =~= before.update(id as int, updated_profile(profile, embedding@)));
        assert forall|i: int| 0 <= i < self@.len() implies profile_well_formed(
            #[trigger] self@[i],
            self.dimension as int,
        ) by {
            if i != id {
                assert(self@[i] == before[i]);
            }
        }
    }

    /// Adds a speaker whose sum is `embedding`.
    fn found(&mut self, embedding: &Vec<i16>)
        requires
            old(self).well_formed(),
            embedding.len() == old(self).dimension(),
        ensures
            final(self).well_formed(),
            final(self).dimension() == old(self).dimension(),
            final(self)@ == old(self)@.push(founding_profile(embedding@)),
    {
        let ghost before = self@;
        let mut sum: Vec<i64> = Vec::new();
        let mut k: usize = 0;
        while k < embedding.len()
            invariant
                k <= embedding.len(),
                sum.len() == k,
                forall|j: int| 0 <= j < k ==> sum[j] == embedding[j],
            decreases embedding.len() - k,
        {
            sum.push(embedding[k] as i64);
            k = k + 1;
        }
        let profile = SpeakerProfile { sum, count: 1 };
        assert(profile.view().sum =~= ints(embedding@));
        assert(profile.view() == founding_profile(embedding@));
        assert(profile_well_formed(profile.view(), self.dimension as int));
        self.speakers.push(profile);
        assert(self@ =~= before.push(founding_profile(embedding@)));
        assert forall|i: int| 0 <= i < self@.len() implies profile_well_formed(
            #[trigger] self@[i],
            self.dimension as int,
        ) by {
            if i < before.len() {
                assert(self@[i] == before[i]);
            }
        }
    }
}

/// The squared length of an embedding.
pub fn squared_length_of(embedding: &Vec<i16>) -> (norm: u64)
    requires
        embedding.len() <= MAX_DIMENSION,
    ensures
        norm == squared_length(embedding@),
        norm <= 0x800_0000_0000,
{
    let ghost e = ints(embedding@);
    let mut norm: u64 = 0;
    let mut k: usize = 0;
    while k < embedding.len()
        invariant
            k <= embedding.len(),
            embedding.len() <= MAX_DIMENSION,
            e == ints(embedding@),
            norm == dot_upto(e, e, k as int),
            norm <= k * (32768 * 32768),
        decreases embedding.len() - k,
    {
        let x: i64 = embedding[k] as i64;
        proof {
            assert(e[k as int] == x);
            assert(0 <= x * x <= 32768 * 32768) by (nonlinear_arith)
                requires
                    -32768 <= x <= 32768,
            ;
            assert(k * (32768 * 32768) <= 8192 * (32768 * 32768)) by (nonlinear_arith)
                requires
                    k <= 8192,
            ;
            assert((k + 1) * (32768 * 32768) == k * (32768 * 32768) + 32768 * 32768)
                by (nonlinear_arith);
        }
        norm = norm + (x * x) as u64;
        k = k + 1;
    }
    assert(k * (32768 * 32768) <= 8192 * (32768 * 32768)) by (nonlinear_arith)
        requires
            k <= 8192,
    ;
    norm
}

/// Whether the cosine similarity of `a` and `b` is at least
/// `threshold / SIMILARITY_ONE`. Two embeddings of which one is all zero
/// have similarity zero.
pub fn reaches_similarity(a: &Vec<i16>, b: &Vec<i16>, threshold: i64) -> (similar: bool)
    requires
        a.len() == b.len(),
        a.len() <= MAX_DIMENSION,
    ensures
        similar == is_similar(a@, ints(b@), threshold as int),
{
    let mut registry = SpeakerRegistry::new(a.len());
    registry.found(b);
    let norm: u64 = squared_length_of(a);
    let score = registry.closeness_to(a, norm, 0);
    let limit = threshold_closeness(threshold);
    !limit.is_above(&score)
}

/// Assigns `embedding` to a speaker and returns the speaker's identity.
///
/// While the registry holds fewer than `max_speakers` speakers, the
/// embedding joins the most similar one if that similarity is at least
/// `threshold`, and founds a new speaker otherwise. Once the registry is
/// full, the embedding joins the most similar speaker whatever the
/// similarity, so no speaker is ever added past `max_speakers`. Among
/// equally similar speakers the one created first wins. The embedding is
/// added to the sum of the speaker that it joins, which makes the
/// speaker's centroid the mean of all embeddings assigned to it. With
/// `max_speakers` zero nothing is recorded and the identity is 0.
pub fn assign(
    embedding: &Vec<i16>,
    registry: &mut SpeakerRegistry,
    max_speakers: usize,
    threshold: i64,
) -> (id: SpeakerId)
    requires
        old(registry).well_formed(),
        embedding.len() == old(registry).dimension(),
    ensures
        final(registry).well_formed(),
        final(registry).dimension() == old(registry).dimension(),
        id == chosen_speaker(embedding@, old(registry)@, max_speakers as int, threshold as int),
        final(registry)@ == speakers_after(
            embedding@,
            old(registry)@,
            max_speakers as int,
            threshold as int,
        ),
        id < final(registry)@.len() || (max_speakers == 0 && id == 0),
        old(registry)@.len() <= max_speakers ==> final(registry)@.len() <= max_speakers,
        final(registry)@.len() >= old(registry)@.len(),
{
    let n: usize = registry.len();
    if n == 0 {
        if max_speakers > 0 {
            registry.found(embedding);
        }
        return 0;
    }
    let norm: u64 = squared_length_of(embedding);
    let (best, score) = registry.best_scored(embedding, norm);
    let limit = threshold_closeness(threshold);
    // The best match falls short of the threshold where the threshold exceeds it.
    if n < max_speakers && limit.is_above(&score) {
        registry.found(embedding);
        n
    } else {
        registry.absorb(best, embedding);
        best
    }
}

/// The speakers after `embeddings` were assigned in order, starting from
/// `speakers`.
pub open spec fn speakers_after_run(
    embeddings: Seq<Seq<i16>>,
    speakers: Seq<ProfileView>,
    max_speakers: int,
    threshold: int,
) -> Seq<ProfileView>
    decreases embeddings.len(),
{
    if embeddings.len() == 0 {
        speakers
    } else {
        speakers_after(
            embeddings.last(),
            speakers_after_run(embeddings.drop_last(), speakers, max_speakers, threshold),
            max_speakers,
            threshold,
        )
    }
}

/// The speaker given to embedding `i` of a run that starts with no speaker.
pub open spec fn label_in_run(
    embeddings: Seq<Seq<i16>>,
    i: int,
    max_speakers: int,
    threshold: int,
) -> int {
    chosen_speaker(
        embeddings[i],
        speakers_after_run(embeddings.take(i), Seq::empty(), max_speakers, threshold),
        max_speakers,
        threshold,
    )
}

/// One assignment keeps a registry within its limit, never shrinks it, and
/// names a speaker that the registry then holds.
pub proof fn lemma_assignment_respects_limit(
    embedding: Seq<i16>,
    speakers: Seq<ProfileView>,
    max_speakers: int,
    threshold: int,
)
    requires
        max_speakers >= 1,
        speakers.len() <= max_speakers,
    ensures
        speakers.len() <= speakers_after(embedding, speakers, max_speakers, threshold).len()
            <= max_speakers,
        0 <= chosen_speaker(embedding, speakers, max_speakers, threshold) < speakers_after(
            embedding,
            speakers,
            max_speakers,
            threshold,
        ).len(),
{
    if speakers.len() > 0 {
        lemma_scores_are_fractions(embedding, speakers);
        lemma_best_match(scores(embedding, speakers));
    }
}

/// A run that starts with no speaker never holds more than `max_speakers`.
pub proof fn lemma_run_stays_within_limit(
    embeddings: Seq<Seq<i16>>,
    max_speakers: int,
    threshold: int,
)
    requires
        max_speakers >= 1,
    ensures
        speakers_after_run(embeddings, Seq::empty(), max_speakers, threshold).len()
            <= max_speakers,
    decreases embeddings.len(),
{
    if embeddings.len() > 0 {
        lemma_run_stays_within_limit(embeddings.drop_last(), max_speakers, threshold);
        lemma_assignment_respects_limit(
            embeddings.last(),
            speakers_after_run(embeddings.drop_last(), Seq::empty(), max_speakers, threshold),
            max_speakers,
            threshold,
        );
    }
}

/// With a limit of `max_speakers`, every speaker identity of a run is below
/// `max_speakers`: at most that many identities appear, whatever the
/// embeddings and their order.
pub proof fn lemma_labels_below_limit(
    embeddings: Seq<Seq<i16>>,
    max_speakers: int,
    threshold: int,
)
    requires
        max_speakers >= 1,
    ensures
        forall|i: int|
            0 <= i < embeddings.len() ==> 0 <= #[trigger] label_in_run(
                embeddings,
                i,
                max_speakers,
                threshold,
            ) < max_speakers,
{
    assert forall|i: int| 0 <= i < embeddings.len() implies 0 <= #[trigger] label_in_run(
        embeddings,
        i,
        max_speakers,
        threshold,
    ) < max_speakers by {
        lemma_run_stays_within_limit(embeddings.take(i), max_speakers, threshold);
        lemma_assignment_respects_limit(
            embeddings[i],
            speakers_after_run(embeddings.take(i), Seq::empty(), max_speakers, threshold),
            max_speakers,
            threshold,
        );
    }
}

/// The speaker identities that appear in a run.
pub open spec fn speakers_of_run(
    embeddings: Seq<Seq<i16>>,
    max_speakers: int,
    threshold: int,
) -> Set<int> {
    Set::new(
        |id: int|
            exists|i: int|
                0 <= i < embeddings.len() && #[trigger] label_in_run(
                    embeddings,
                    i,
                    max_speakers,
                    threshold,
                ) == id,
    )
}

/// With a limit of `max_speakers`, a run gives out at most `max_speakers`
/// different speaker identities, however many different embeddings it sees.
pub proof fn lemma_at_most_limit_speakers(
    embeddings: Seq<Seq<i16>>,
    max_speakers: int,
    threshold: int,
)
    requires
        max_speakers >= 1,
    ensures
        speakers_of_run(embeddings, max_speakers, threshold).finite(),
        speakers_of_run(embeddings, max_speakers, threshold).len() <= max_speakers,
{
    let seen = speakers_of_run(embeddings, max_speakers, threshold);
    let allowed = set_int_range(0, max_speakers);
    lemma_labels_below_limit(embeddings, max_speakers, threshold);
    lemma_int_range(0, max_speakers);
    assert(seen.subset_of(allowed));
    lemma_len_subset(seen, allowed);
}

/// With a limit of one speaker every embedding is given speaker 0.
pub proof fn lemma_single_speaker(embeddings: Seq<Seq<i16>>, threshold: int)
    ensures
        forall|i: int|
            0 <= i < embeddings.len() ==> #[trigger] label_in_run(embeddings, i, 1, threshold)
                == 0,
{
    lemma_labels_below_limit(embeddings, 1, threshold);
}

/// Raising the score of the best match leaves it the best match.
pub proof fn lemma_best_match_stays(scores: Seq<Fraction>, raised: Seq<Fraction>)
    requires
        scores.len() > 0,
        raised.len() == scores.len(),
        are_fractions(scores),
        are_fractions(raised),
        reaches(raised[best_match(scores)], scores[best_match(scores)]),
        forall|i: int|
            0 <= i < scores.len() && i != best_match(scores) ==> #[trigger] raised[i] == scores[i],
    ensures
        best_match(raised) == best_match(scores),
{
    lemma_best_match(scores);
    lemma_best_match(raised);
    let best = best_match(scores);
    let now = best_match(raised);
    if now < best {
        // The new best was lower than the old best and is not raised.
        assert(raised[now] == scores[now]);
        assert(exceeds(scores[best], scores[now]));
        lemma_fractions_are_ordered(raised[best], scores[best], scores[now]);
        assert(reaches(raised[now], raised[best]));
    } else if now > best {
        // The new best lies after the old best, so it exceeds it now.
        assert(raised[now] == scores[now]);
        assert(reaches(scores[best], scores[now]));
        assert(exceeds(raised[now], raised[best]));
        lemma_fractions_are_ordered(raised[now], raised[best], scores[best]);
    }
}

/// An embedding that founded a speaker is given that speaker again when it
/// comes right after itself, provided it is not all zero and the threshold
/// is at most one.
pub proof fn lemma_founder_is_recognized(
    embedding: Seq<i16>,
    speakers: Seq<ProfileView>,
    max_speakers: int,
    threshold: int,
)
    requires
        squared_length(embedding) > 0,
        threshold <= SIMILARITY_ONE,
        founds_speaker(embedding, speakers, max_speakers, threshold),
    ensures
        chosen_speaker(
            embedding,
            speakers_after(embedding, speakers, max_speakers, threshold),
            max_speakers,
            threshold,
        ) == chosen_speaker(embedding, speakers, max_speakers, threshold),
{
    let before = scores(embedding, speakers);
    let grown = speakers_after(embedding, speakers, max_speakers, threshold);
    let after = scores(embedding, grown);
    let limit = threshold_fraction(threshold);
    lemma_closeness_to_itself(embedding, threshold);
    lemma_scores_are_fractions(embedding, speakers);
    lemma_scores_are_fractions(embedding, grown);
    assert(after.drop_last() =~= before);
    assert(after.last() == closeness(embedding, ints(embedding)));
    assert(reaches(after.last(), limit));
    if speakers.len() > 0 {
        lemma_best_match(before);
        let best = best_match(before);
        assert(after[best] == before[best]);
        // The threshold exceeds the old best, and the founder reaches the threshold.
        assert(exceeds(limit, before[best]));
        lemma_fractions_are_ordered(after.last(), limit, before[best]);
        assert(exceeds(after.last(), after[best]));
    }
    assert(best_match(after) == speakers.len());
}

/// An embedding that comes twice in a row is given the same speaker both
/// times, whatever the speakers known before and whether or not the
/// registry is full, provided the embedding is not all zero and the
/// threshold is at most one.
pub proof fn lemma_repeated_embedding_keeps_its_speaker(
    embedding: Seq<i16>,
    speakers: Seq<ProfileView>,
    dimension: int,
    max_speakers: int,
    threshold: int,
)
    requires
        max_speakers >= 1,
        threshold <= SIMILARITY_ONE,
        squared_length(embedding) > 0,
        embedding.len() == dimension,
        profiles_well_formed(speakers, dimension),
    ensures
        chosen_speaker(
            embedding,
            speakers_after(embedding, speakers, max_speakers, threshold),
            max_speakers,
            threshold,
        ) == chosen_speaker(embedding, speakers, max_speakers, threshold),
{
    if founds_speaker(embedding, speakers, max_speakers, threshold) {
        lemma_founder_is_recognized(embedding, speakers, max_speakers, threshold);
    } else {
        // There is a speaker, since a registry with room and no speaker founds one.
        let before = scores(embedding, speakers);
        let id = best_match(before);
        let limit = threshold_fraction(threshold);
        lemma_scores_are_fractions(embedding, speakers);
        lemma_best_match(before);
        let grown = speakers_after(embedding, speakers, max_speakers, threshold);
        let after = scores(embedding, grown);
        lemma_scores_are_fractions(embedding, grown);
        assert(grown == speakers.update(id, updated_profile(speakers[id], embedding)));
        assert(after.len() == before.len());
        assert(profile_well_formed(speakers[id], dimension));
        if speakers[id].count < MAX_COUNT {
            lemma_absorbing_brings_closer(embedding, speakers[id].sum);
        }
        assert(reaches(after[id], before[id]));
        assert forall|i: int| 0 <= i < before.len() && i != id implies #[trigger] after[i]
            == before[i] by {
            assert(grown[i] == speakers[i]);
        }
        lemma_best_match_stays(before, after);
        if reaches(before[id], limit) {
            lemma_fractions_are_ordered(after[id], before[id], limit);
        }
    }
}

/// Assignment keeps the speakers well formed.
pub proof fn lemma_assignment_keeps_profiles(
    embedding: Seq<i16>,
    speakers: Seq<ProfileView>,
    dimension: int,
    max_speakers: int,
    threshold: int,
)
    requires
        embedding.len() == dimension,
        profiles_well_formed(speakers, dimension),
    ensures
        profiles_well_formed(
            speakers_after(embedding, speakers, max_speakers, threshold),
            dimension,
        ),
{
    let grown = speakers_after(embedding, speakers, max_speakers, threshold);
    assert forall|i: int| 0 <= i < grown.len() implies profile_well_formed(
        #[trigger] grown[i],
        dimension,
    ) by {
        if founds_speaker(embedding, speakers, max_speakers, threshold) {
            if i < speakers.len() {
                assert(grown[i] == speakers[i]);
            } else {
                assert(grown[i] == founding_profile(embedding));
            }
        } else if speakers.len() > 0 {
            lemma_scores_are_fractions(embedding, speakers);
            lemma_best_match(scores(embedding, speakers));
            let id = best_match(scores(embedding, speakers));
            assert(profile_well_formed(speakers[i], dimension));
            if i == id && speakers[id].count < MAX_COUNT {
                let profile = speakers[id];
                let next = updated_profile(profile, embedding);
                assert forall|k: int| 0 <= k < next.sum.len() implies -32768 * next.count
                    <= #[trigger] next.sum[k] <= 32767 * next.count by {
                    assert(-32768 * profile.count <= profile.sum[k] <= 32767 * profile.count);
                }
            }
        }
    }
}

} // verus!
