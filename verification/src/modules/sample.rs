//! Random samples near a semigroup: numbers drawn above its multiplicity and below its
//! conductor, kept when they are coprime, and a sample accepted when it has the same
//! multiplicity and embedding dimension and a smaller share of members below the conductor
//! than the best one so far.
use vstd::prelude::*;
use rand::Rng;
use rand::rngs::ThreadRng;
use crate::modules::{all_positive, divides, gcd_seq, gcd_vec, lemma_divides_le, lemma_gcd_seq_properties};
use crate::modules::wilf::WilfSet;

verus! {

#[verifier::external_type_specification]
#[verifier::external_body]
pub struct ExThreadRng(ThreadRng);

/// Calls `Rng::gen_range(low, high)` of rand on the thread's generator.  Its documentation
/// and source give a number in `low..high` and a panic where `low >= high`, which the
/// `requires` leaves out; which number comes is left to chance and not stated.  Beside the
/// number it hands back, as a ghost record of the draw, the range it was asked for and the
/// number drawn.
#[verifier::external_body]
fn random_in(rng: &mut ThreadRng, low: usize, high: usize) -> (r: (usize, Ghost<(usize, usize, usize)>))
    requires
        low < high,
    ensures
        low <= r.0 < high,
        r.1@ == (low, high, r.0),
{
    let r = rng.gen_range(low, high);
    (r, Ghost((low, high, r)))
}

/// A record of draws: each asked for the range `g1 + 1..wmax` and gave a number in it.
pub open spec fn draws_in_range(log: Seq<(usize, usize, usize)>, g1: usize, wmax: usize) -> bool {
    forall|k: int| 0 <= k < log.len() ==> {
        &&& #[trigger] log[k].0 == g1 + 1
        &&& log[k].1 == wmax
        &&& g1 + 1 <= log[k].2 < wmax
    }
}

/// How many numbers a sample of `w` draws: `e - 1` when `g1 + 1..c` is not empty, none
/// otherwise.
pub open spec fn draw_count(g1: usize, wmax: usize, e: usize) -> int {
    if g1 + 1 < wmax { e - 1 } else { 0 }
}

/// The candidate made of the draws of `log`: `g1`, then the numbers drawn, in order.
pub open spec fn drawn(g1: usize, log: Seq<(usize, usize, usize)>) -> Seq<usize> {
    seq![g1] + log.map_values(|d: (usize, usize, usize)| d.2)
}

/// A candidate drawn for multiplicity `g1`, conductor `wmax` and `e` generators: `g1`
/// first, then `e - 1` numbers in `g1 + 1..wmax`, or `g1` alone when that range is empty.
pub open spec fn candidate_shape(v: Seq<usize>, g1: usize, wmax: usize, e: usize) -> bool {
    &&& v.len() == if g1 + 1 < wmax { e as int } else { 1 }
    &&& v[0] == g1
    &&& forall|i: int| 1 <= i < v.len() ==> g1 + 1 <= #[trigger] v[i] < wmax
}

/// One draw of the numbers of a sample of `w`: its multiplicity, then `e - 1` numbers
/// drawn in `g1 + 1..c` when that range is not empty.  Beside the candidate it hands back
/// the ghost record of its draws: each asked for `g1 + 1..c`, and the candidate is `g1`
/// followed by the numbers drawn.
pub fn draw_candidate(w: &WilfSet, rng: &mut ThreadRng) -> (res: (Vec<usize>, Ghost<Seq<(usize, usize, usize)>>))
    requires
        w.e >= 1,
        w.g1 < usize::MAX,
    ensures
        res.1@.len() == draw_count(w.g1, w.c, w.e),
        draws_in_range(res.1@, w.g1, w.c),
        res.0@ == drawn(w.g1, res.1@),
        candidate_shape(res.0@, w.g1, w.c, w.e),
{
    let g1 = w.g1;
    let wmax = w.c;
    let mut v: Vec<usize> = Vec::new();
    v.push(g1);
    let ghost mut log: Seq<(usize, usize, usize)> = Seq::empty();
    let mut k: usize = 0;
    while k < w.e - 1
        invariant
            g1 == w.g1,
            wmax == w.c,
            w.e >= 1,
            g1 < usize::MAX,
            0 <= k <= w.e - 1,
            log.len() == if g1 + 1 < wmax { k as int } else { 0 },
            draws_in_range(log, g1, wmax),
            v@ == drawn(g1, log),
        decreases w.e - 1 - k,
    {
        if g1 + 1 < wmax {
            let (r, d) = random_in(rng, g1 + 1, wmax);
            v.push(r);
            proof {
                log = log.push(d@);
                assert(drawn(g1, log) =~= drawn(g1, log.drop_last()).push(r));
            }
        }
        k = k + 1;
    }
    assert forall|i: int| 1 <= i < v@.len() implies g1 + 1 <= #[trigger] v@[i] < wmax by {
        assert(v@[i] == log[i - 1].2);
        assert(log[i - 1].0 == g1 + 1);
    }
    (v, Ghost(log))
}

/// The candidate when its numbers are coprime, `None` otherwise.
pub fn coprime_sample(candidate: Vec<usize>) -> (res: Option<Vec<usize>>)
    requires
        candidate@.len() > 0,
        all_positive(candidate@),
    ensures
        res is Some <==> gcd_seq(candidate@) == 1,
        res matches Some(v) ==> v@ == candidate@,
{
    if gcd_vec(candidate.as_slice()) == 1 {
        Some(candidate)
    } else {
        None
    }
}

/// One attempt at the numbers of a random sample of `w`: a draw, kept when coprime.  With
/// multiplicity 1 every draw is kept; where nothing is drawn (no room above `g1` below the
/// conductor, or a single generator) the draw is `[g1]`, kept exactly when `g1` is 1.
/// Beside the result it hands back the ghost record of the draws made, as `draw_candidate`
/// states it; the result is `Some` of `g1` followed by the numbers drawn exactly when those
/// are coprime.
pub fn sample_attempt(w: &WilfSet, rng: &mut ThreadRng) -> (res: (Option<Vec<usize>>, Ghost<Seq<(usize, usize, usize)>>))
    requires
        w.e >= 1,
        1 <= w.g1 < usize::MAX,
    ensures
        res.1@.len() == draw_count(w.g1, w.c, w.e),
        draws_in_range(res.1@, w.g1, w.c),
        res.0 is Some <==> gcd_seq(drawn(w.g1, res.1@)) == 1,
        res.0 matches Some(v) ==> v@ == drawn(w.g1, res.1@),
        res.0 matches Some(v) ==> candidate_shape(v@, w.g1, w.c, w.e) && gcd_seq(v@) == 1,
        w.g1 == 1 ==> res.0 is Some,
        !(w.g1 + 1 < w.c) || w.e == 1 ==> (res.0 is Some <==> w.g1 == 1),
        !(w.g1 + 1 < w.c) || w.e == 1 ==> (res.0 matches Some(v) ==> v@ == seq![w.g1]),
{
    let (v, log) = draw_candidate(w, rng);
    assert(all_positive(v@)) by {
        assert forall|i: int| 0 <= i < v@.len() implies #[trigger] v@[i] > 0 by {
            if i > 0 {
                assert(w.g1 + 1 <= v@[i]);
            }
        }
    }
    proof {
        lemma_gcd_seq_properties(v@);
        assert(divides(gcd_seq(v@), v@[0] as nat));
        if w.g1 == 1 {
            lemma_divides_le(gcd_seq(v@), 1);
        }
        if !(w.g1 + 1 < w.c) || w.e == 1 {
            assert(v@.len() == 1);
            assert(gcd_seq(v@) == v@[0]);
            assert(v@ =~= seq![w.g1]);
        }
    }
    (coprime_sample(v), log)
}

/// Whether the sample `w` replaces the best one so far (`old_c` and `old_s` its conductor
/// and members below it) as the sample of `input`: same embedding dimension and
/// multiplicity, multiplicity above 1, and `w.count_set / w.c < old_s / old_c`.
pub open spec fn improves(input: WilfSet, old_c: usize, old_s: usize, w: WilfSet) -> bool {
    &&& w.e == input.e
    &&& w.g1 == input.g1
    &&& w.g1 > 1
    &&& old_c * w.count_set < w.c * old_s
}

/// One step of the sampling: accept `w` when it improves on the best so far, and return
/// the conductor and member count of the best sample after it.
pub fn sample_step(input: &WilfSet, old_c: usize, old_s: usize, w: &WilfSet) -> (res: (bool, usize, usize))
    requires
        old_c * w.count_set <= usize::MAX,
        w.c * old_s <= usize::MAX,
    ensures
        res.0 == improves(*input, old_c, old_s, *w),
        res.0 ==> res.1 == w.c && res.2 == w.count_set,
        !res.0 ==> res.1 == old_c && res.2 == old_s,
{
    let kleiner = old_c * w.count_set < w.c * old_s;
    if w.e == input.e && w.g1 == input.g1 && w.g1 > 1 && kleiner {
        (true, w.c, w.count_set)
    } else {
        (false, old_c, old_s)
    }
}

/// A sample is kept exactly when it has the input's embedding dimension and multiplicity,
/// the multiplicity is above 1, and its share of members below the conductor is smaller
/// than that of the best sample so far: `count_set / c < old_s / old_c`.  The size of
/// the conductor itself plays no part: only the ratio counts.
pub proof fn lemma_improves_by_ratio(input: WilfSet, old_c: usize, old_s: usize, w: WilfSet)
    requires
        old_c > 0,
        w.c > 0,
    ensures
        improves(input, old_c, old_s, w) <==> {
            &&& w.e == input.e
            &&& w.g1 == input.g1
            &&& w.g1 > 1
            &&& (w.count_set as int) * (old_c as int) < (old_s as int) * (w.c as int)
        },
{
    assert((old_c as int) * (w.count_set as int) == (w.count_set as int) * (old_c as int)) by (nonlinear_arith);
    assert((w.c as int) * (old_s as int) == (old_s as int) * (w.c as int)) by (nonlinear_arith);
}

/// Scaling the best sample so far leaves the decision unchanged: only the ratio
/// `old_s / old_c` matters, not the conductor `old_c`.
pub proof fn lemma_improves_scale(input: WilfSet, old_c: usize, old_s: usize, k: usize, w: WilfSet)
    requires
        k > 0,
        old_c * k <= usize::MAX,
        old_s * k <= usize::MAX,
    ensures
        improves(input, old_c, old_s, w) == improves(input, (old_c * k) as usize, (old_s * k) as usize, w),
{
    let a = (old_c as int) * (w.count_set as int);
    let b = (w.c as int) * (old_s as int);
    assert(((old_c * k) as usize as int) * (w.count_set as int) == a * k) by (nonlinear_arith)
        requires (old_c * k) as usize as int == old_c * k, a == (old_c as int) * (w.count_set as int);
    assert((w.c as int) * ((old_s * k) as usize as int) == b * k) by (nonlinear_arith)
        requires (old_s * k) as usize as int == old_s * k, b == (w.c as int) * (old_s as int);
    assert(a < b <==> a * k < b * k) by (nonlinear_arith)
        requires k > 0;
}

} // verus!
