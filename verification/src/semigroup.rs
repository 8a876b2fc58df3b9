//! A first sieve for the semigroup of a list of numbers: a window of twice the largest
//! number moves over the integers and marks the hits, numbers one generator above a hit.
//! When the window is full its contents move `m` places back (`m` the least number) and
//! the sieve goes on at place `m`.  The result is described by the run of the sieve
//! itself, step by step.
use vstd::prelude::*;
use vstd::arithmetic::div_mod::*;
use crate::modules::{all_positive, gcd_seq, gcd_vec, lemma_gcd_seq_properties, lemma_gcd_seq_scaled, scaled};
use crate::modules::semigroup::{apery_table_ok, lemma_apery_table_new_ok, lemma_found_step, selmer_gaps, semi_new_ok};
use crate::modules::wilf::{apery_found, checked_total, lemma_reduce_same_elements, lemma_reduce_scaled, lemma_reduce_positive, reduce, strictly_increasing, vec_max, vec_min};
use crate::numsg::{
    apery_seq, in_sg, is_apery, same_elements, is_min_of, lemma_apery_is, lemma_apery_zero, lemma_below_min, lemma_member_unfold,
    lemma_seq_max, lemma_seq_min, positive_gens, seq_max, seq_min, seq_sum,
};

verus! {

/// The state of the sieve: the number `i` under test, its place `look` in the window, the
/// length `run` of the current run of hits, the window (1 marks a hit), the hits so far in
/// order, and for each non-zero residue modulo the least number its first hit (0 while
/// there is none).
pub struct SieveState {
    pub i: nat,
    pub look: nat,
    pub run: nat,
    pub window: Seq<usize>,
    pub found: Seq<usize>,
    pub apery: Seq<usize>,
}

/// A hit at `st.i`: the run grows, the place is marked, `st.i` joins the hits, and it
/// becomes the Apéry entry of its residue when that residue is non-zero and has none.
pub open spec fn sieve_hit(st: SieveState, m: nat) -> SieveState {
    let r = st.i % m;
    SieveState {
        i: st.i,
        look: st.look,
        run: st.run + 1,
        window: st.window.update(st.look as int, 1usize),
        found: st.found.push(st.i as usize),
        apery: if r > 0 && st.apery[r as int] == 0 {
            st.apery.update(r as int, st.i as usize)
        } else {
            st.apery
        },
    }
}

/// Testing `st.i` against the number `k`: a hit when the window holds a hit `k` places
/// back and none at the current place.
pub open spec fn sieve_try(st: SieveState, m: nat, k: usize) -> SieveState {
    if st.look >= k && st.window[st.look - k] == 1 && st.window[st.look as int] == 0 {
        sieve_hit(st, m)
    } else {
        st
    }
}

/// Testing `st.i` against the first `j` numbers of `g`, in order.
pub open spec fn sieve_scan(g: Seq<usize>, st: SieveState, m: nat, j: nat) -> SieveState
    decreases j,
{
    if j == 0 {
        st
    } else {
        sieve_try(sieve_scan(g, st, m, (j - 1) as nat), m, g[j - 1])
    }
}

/// The window after its last place: places `0..mx` take the contents `m` places further
/// on, places `mx..mx + m` are cleared, the others are kept.
pub open spec fn sieve_shift(w: Seq<usize>, mx: nat, m: nat) -> Seq<usize> {
    Seq::new(w.len(), |p: int| if p < mx { w[p + m] } else if p < mx + m { 0usize } else { w[p] })
}

/// One step of the sieve: test `st.i` against every number, reset the run when there was
/// no hit, and move to the next number and the next place (back to place `m` after the
/// last place, with the window moved).
pub open spec fn sieve_step(g: Seq<usize>, st: SieveState, m: nat, mx: nat) -> SieveState {
    let s1 = sieve_scan(g, st, m, g.len());
    let run = if s1.found.len() > st.found.len() { s1.run } else { 0 };
    if st.look == 2 * mx - 1 {
        SieveState { i: st.i + 1, look: m, run, window: sieve_shift(s1.window, mx, m), found: s1.found, apery: s1.apery }
    } else {
        SieveState { i: st.i + 1, look: st.look + 1, run, window: s1.window, found: s1.found, apery: s1.apery }
    }
}

/// The sieve goes on below `mx * mx + 1` until a run of `m` hits.
pub open spec fn sieve_goes_on(st: SieveState, m: nat, mx: nat) -> bool {
    st.i < mx * mx + 1 && st.run < m
}

/// At most `fuel` steps of the sieve from `st`, stopping where it stops.
pub open spec fn sieve_from(g: Seq<usize>, st: SieveState, m: nat, mx: nat, fuel: nat) -> SieveState
    decreases fuel,
{
    if fuel == 0 || !sieve_goes_on(st, m, mx) {
        st
    } else {
        sieve_from(g, sieve_step(g, st, m, mx), m, mx, (fuel - 1) as nat)
    }
}

/// The sieve before its first step: number `m` at place `m`, a hit at place 0, a run of 1.
pub open spec fn sieve_start(m: nat, mx: nat) -> SieveState {
    SieveState {
        i: m,
        look: m,
        run: 1,
        window: Seq::new(2 * mx, |p: int| if p == 0 { 1usize } else { 0usize }),
        found: Seq::empty(),
        apery: Seq::new(m, |r: int| 0usize),
    }
}

/// Where the sieve on `g` stops: after a run of `m` hits, or at `mx * mx + 1`.
pub open spec fn sieve_end(g: Seq<usize>) -> SieveState {
    let m = seq_min(g);
    let mx = seq_max(g);
    sieve_from(g, sieve_start(m, mx), m, mx, mx * mx + 1)
}

/// The semigroup data that the sieve gives: Apéry table, number of hits, multiplicity.
pub struct Semi {
    pub apery: Vec<usize>,
    pub max_a: usize,
    pub sum_a: usize,
    pub double_avg_a: usize,
    pub maxgap: usize,
    pub g1: usize,
    pub count_set: usize,
    pub count_gap: usize,
    pub gen_set: Vec<usize>,
    pub e: usize,
    pub c: usize,
    pub a1: usize,
}

/// The fields of `s` derived from the hits `set`, the Apéry table `ap` and `g1`; the
/// generator list is the placeholder `[1]`.
pub open spec fn old_semi_fields(s: Semi, count_set: nat, ap: Seq<usize>, g1: usize) -> bool {
    &&& s.apery@ == ap
    &&& s.max_a == seq_max(ap)
    &&& s.sum_a == seq_sum(ap)
    &&& s.double_avg_a == 2 * seq_sum(ap) / ap.len()
    &&& s.g1 == g1
    &&& s.maxgap == seq_max(ap) - g1
    &&& s.c == seq_max(ap) - g1 + 1
    &&& s.count_set == count_set
    &&& s.count_gap == selmer_gaps(ap, g1)
    &&& s.gen_set@ == seq![1usize]
    &&& s.e == 1
    &&& s.a1 == ap[1]
}

proof fn lemma_sum_take_step(s: Seq<usize>, j: int)
    requires
        0 <= j < s.len(),
    ensures
        seq_sum(s.take(j + 1)) == seq_sum(s.take(j)) + s[j],
        seq_max(s.take(j + 1)) == if s[j] as nat > seq_max(s.take(j)) { s[j] as nat } else { seq_max(s.take(j)) },
{
    assert(s.take(j + 1).drop_last() =~= s.take(j));
}

proof fn lemma_sum_take_le(s: Seq<usize>, j: int)
    requires
        0 <= j <= s.len(),
    ensures
        seq_sum(s.take(j)) <= seq_sum(s),
    decreases s.len() - j,
{
    if j < s.len() {
        lemma_sum_take_le(s, j + 1);
        lemma_sum_take_step(s, j);
    } else {
        assert(s.take(j) =~= s);
    }
}

impl Semi {
    fn new(set: Vec<usize>, apery: Vec<usize>, g1: usize) -> (s: Self)
        requires
            semi_new_ok(apery@, g1),
        ensures
            old_semi_fields(s, set@.len(), apery@, g1),
    {
        let ghost ap = apery@;
        let mut max_a: usize = 0;
        let mut sum: usize = 0;
        let mut k: usize = 0;
        assert(ap.take(0) =~= Seq::<usize>::empty());
        while k < apery.len()
            invariant
                ap == apery@,
                0 <= k <= ap.len(),
                max_a == seq_max(ap.take(k as int)),
                sum == seq_sum(ap.take(k as int)),
                2 * seq_sum(ap) <= usize::MAX,
            decreases ap.len() - k,
        {
            proof {
                lemma_sum_take_step(ap, k as int);
                lemma_sum_take_le(ap, k + 1);
            }
            if apery[k] > max_a {
                max_a = apery[k];
            }
            sum = sum + apery[k];
            k = k + 1;
        }
        assert(ap.take(ap.len() as int) =~= ap);
        let a1: usize = apery[1];
        let count_set = set.len();
        proof {
            lemma_seq_max(ap);
            assert(ap[1] > g1);
        }
        let count_gap = (sum - ((g1 - 1) * g1) / 2) / g1;
        let double_avg_a = 2 * sum / apery.len();
        let mut gen_set: Vec<usize> = Vec::new();
        gen_set.push(1);
        assert(gen_set@ =~= seq![1usize]);
        Semi {
            apery: apery,
            max_a: max_a,
            sum_a: sum,
            double_avg_a: double_avg_a,
            g1: g1,
            maxgap: max_a - g1,
            count_set: count_set,
            count_gap: count_gap,
            e: 1,
            gen_set: gen_set,
            c: max_a - g1 + 1,
            a1: a1,
        }
    }
}

/// What the sieve needs: non-zero numbers, room for `mx * mx + 1` (`mx` the largest after
/// division by the gcd), and an Apéry table at the end that `Semi::new` accepts: every
/// non-zero residue hit, the sums in range.
pub open spec fn old_semi_ok(s: Seq<usize>) -> bool {
    let g = reduce(s);
    let mx = seq_max(g);
    &&& s.len() > 0
    &&& all_positive(s)
    &&& mx * mx + 1 <= usize::MAX
    &&& apery_table_ok(sieve_end(g).apery, seq_min(g) as usize)
}

/// What `semi` gives for `s`: the data of the sieve run on `s` divided by its gcd.
pub open spec fn old_semi_post(s: Seq<usize>, res: Semi) -> bool {
    let g = reduce(s);
    let fin = sieve_end(g);
    old_semi_fields(res, fin.found.len(), fin.apery, seq_min(g) as usize)
}

/// The state that the sieve's variables hold.
pub open spec fn state_of(i: usize, look: usize, run: usize, w: Seq<usize>, f: Seq<usize>, ap: Seq<usize>) -> SieveState {
    SieveState { i: i as nat, look: look as nat, run: run as nat, window: w, found: f, apery: ap }
}

/// The numbers divided by their greatest common divisor.
fn reduced(inputnumbers: &[usize]) -> (input: Vec<usize>)
    requires
        inputnumbers@.len() > 0,
        all_positive(inputnumbers@),
    ensures
        input@ == reduce(inputnumbers@),
        positive_gens(input@),
{
    let ghost s = inputnumbers@;
    let d = gcd_vec(inputnumbers);
    proof {
        lemma_gcd_seq_properties(s);
    }
    let mut input: Vec<usize> = Vec::new();
    let mut k: usize = 0;
    while k < inputnumbers.len()
        invariant
            s == inputnumbers@,
            d == gcd_seq(s),
            d > 0,
            0 <= k <= s.len(),
            input@ =~= reduce(s).take(k as int),
        decreases s.len() - k,
    {
        input.push(inputnumbers[k] / d);
        k = k + 1;
    }
    let ghost g = reduce(s);
    assert(input@ =~= g);
    proof {
        lemma_reduce_positive(s);
        lemma_seq_min(g);
        lemma_seq_max(g);
    }
    input
}

/// The sieve run on reduced numbers `input`, with least element `m` and largest
/// `maximal_input`, until a run of `m` hits or until `maximal_input² + 1`: its hits and its
/// Apéry table at the end.
fn first_sieve_run(input: &Vec<usize>, m: usize, maximal_input: usize) -> (res: (Vec<usize>, Vec<usize>))
    requires
        positive_gens(input@),
        m == seq_min(input@),
        maximal_input == seq_max(input@),
        2 <= m,
        maximal_input * maximal_input + 1 <= usize::MAX,
    ensures
        res.0@ == sieve_end(input@).found,
        res.1@ == sieve_end(input@).apery,
{
    let ghost g = input@;
    let ghost mx = maximal_input as nat;
    proof {
        lemma_seq_min(g);
        lemma_seq_max(g);
        let km = choose|k: int| 0 <= k < g.len() && g[k] == seq_min(g);
        assert(m <= g[km] <= mx);
        assert(2 * mx <= mx * mx + 1) by (nonlinear_arith);
    }
    let width = 2 * maximal_input;
    let upperbound = maximal_input * maximal_input + 1;
    let mut aperyset: Vec<usize> = vec![0usize; m];
    let mut result: Vec<usize> = Vec::new();
    let mut window: Vec<usize> = vec![0usize; width];
    window.set(0, 1);
    let mut i: usize = m;
    let mut lookupindex: usize = m;
    let mut runlength: usize = 1;
    let mut hit: bool = false;
    let ghost fuel0 = mx * mx + 1;
    proof {
        assert(window@ =~= sieve_start(m as nat, mx).window);
        assert(aperyset@ =~= sieve_start(m as nat, mx).apery);
        assert(result@ =~= Seq::<usize>::empty());
        assert(state_of(i, lookupindex, runlength, window@, result@, aperyset@) == sieve_start(m as nat, mx));
    }
    while i < upperbound && runlength < m
        invariant
            g == input@,
            positive_gens(g),
            m == seq_min(g),
            mx == seq_max(g),
            maximal_input == mx,
            2 <= m <= mx,
            width == 2 * mx,
            upperbound == mx * mx + 1,
            fuel0 == mx * mx + 1,
            mx * mx + 1 <= usize::MAX,
            window@.len() == width,
            aperyset@.len() == m,
            m <= lookupindex < width,
            m <= i <= upperbound,
            !hit,
            sieve_from(g, state_of(i, lookupindex, runlength, window@, result@, aperyset@), m as nat, mx, (fuel0 - (i - m)) as nat)
                == sieve_end(g),
        decreases upperbound - i,
    {
        let ghost st0 = state_of(i, lookupindex, runlength, window@, result@, aperyset@);
        let mut j: usize = 0;
        while j < input.len()
            invariant
                g == input@,
                positive_gens(g),
                2 <= m,
                window@.len() == width,
                aperyset@.len() == m,
                m <= lookupindex < width,
                st0.i == i,
                st0.look == lookupindex,
                0 <= j <= g.len(),
                state_of(i, lookupindex, runlength, window@, result@, aperyset@) == sieve_scan(g, st0, m as nat, j as nat),
                hit == (result@.len() > st0.found.len()),
                st0.found.len() <= result@.len() <= st0.found.len() + 1,
                result@.len() > st0.found.len() ==> window@[lookupindex as int] == 1,
                st0.run < m,
                runlength == st0.run + (result@.len() - st0.found.len()),
            decreases g.len() - j,
        {
            let k = input[j];
            if lookupindex >= k && 1 == window[lookupindex - k] && 0 == window[lookupindex] {
                result.push(i);
                runlength = runlength + 1;
                hit = true;
                window.set(lookupindex, 1);
                let residue = i % m;
                if residue > 0 {
                    if 0 == aperyset[residue] {
                        aperyset.set(residue, i);
                    }
                }
            }
            j = j + 1;
            proof {
                let a = sieve_scan(g, st0, m as nat, (j - 1) as nat);
                let b = sieve_try(a, m as nat, g[j - 1]);
                assert(sieve_scan(g, st0, m as nat, j as nat) == b);
                assert(window@ =~= b.window);
                assert(result@ =~= b.found);
                assert(aperyset@ =~= b.apery);
            }
        }
        assert(state_of(i, lookupindex, runlength, window@, result@, aperyset@) == sieve_scan(g, st0, m as nat, g.len()));
        let ghost s1 = sieve_scan(g, st0, m as nat, g.len());
        if !hit {
            runlength = 0;
        }
        hit = false;
        i = i + 1;
        if lookupindex == width - 1 {
            let ghost w0 = window@;
            let mut t: usize = 0;
            while t < maximal_input
                invariant
                    window@.len() == w0.len(),
                    w0.len() == width,
                    width == 2 * mx,
                    maximal_input == mx,
                    2 <= m <= mx,
                    0 <= t <= mx,
                    forall|p: int| 0 <= p < w0.len() ==> #[trigger] window@[p] == if p < t {
                        w0[p + m]
                    } else if m <= p < t + m {
                        0usize
                    } else {
                        w0[p]
                    },
                decreases mx - t,
            {
                let v = window[t + m];
                window.set(t, v);
                window.set(t + m, 0);
                t = t + 1;
            }
            assert(window@ =~= sieve_shift(w0, mx, m as nat));
            lookupindex = m;
        } else {
            lookupindex = lookupindex + 1;
        }
        proof {
            let next = sieve_step(g, st0, m as nat, mx);
            assert(window@ =~= next.window);
            assert(state_of(i, lookupindex, runlength, window@, result@, aperyset@) == next);
            assert(sieve_goes_on(st0, m as nat, mx));
        }
    }
    let ghost fin = state_of(i, lookupindex, runlength, window@, result@, aperyset@);
    assert(fin == sieve_end(g));
    (result, aperyset)
}

/// Whether `ap` is an Apéry table modulo `g1` that `Semi::new` accepts.
fn apery_table_check(ap: &Vec<usize>, g1: usize) -> (b: bool)
    ensures
        b == apery_table_ok(ap@, g1),
{
    if ap.len() != g1 || g1 < 2 {
        return false;
    }
    let mut r: usize = 1;
    while r < g1
        invariant
            ap@.len() == g1,
            1 <= r <= g1,
            forall|k: int| 1 <= k < r ==> #[trigger] ap@[k] > g1,
        decreases g1 - r,
    {
        if ap[r] <= g1 {
            return false;
        }
        r = r + 1;
    }
    let total = match checked_total(ap) {
        Some(t) => t,
        None => return false,
    };
    if total.checked_mul(2).is_none() {
        return false;
    }
    (g1 - 1).checked_mul(g1).is_some()
}

/// The numbers divided by their gcd, and the sieve run on them until a run of `m` hits
/// (`m` the least of them) or until `mx * mx + 1` (`mx` the largest).
pub fn semi(inputnumbers: &[usize]) -> (res: Semi)
    requires
        old_semi_ok(inputnumbers@),
    ensures
        old_semi_post(inputnumbers@, res),
{
    let input = reduced(inputnumbers);
    let ghost g = input@;
    proof {
        lemma_seq_min(g);
        lemma_seq_max(g);
    }
    let maximal_input = vec_max(&input);
    let m = vec_min(&input);
    let (result, aperyset) = first_sieve_run(&input, m, maximal_input);
    proof {
        lemma_apery_table_new_ok(aperyset@, m);
    }
    Semi::new(result, aperyset, m)
}

/// `semi` where its input is one it accepts, `None` otherwise.
pub fn try_semi(inputnumbers: &[usize]) -> (res: Option<Semi>)
    ensures
        res is Some <==> old_semi_ok(inputnumbers@),
        res matches Some(r) ==> old_semi_post(inputnumbers@, r),
{
    let ghost s = inputnumbers@;
    let len = inputnumbers.len();
    if len == 0 {
        return None;
    }
    let mut k: usize = 0;
    while k < len
        invariant
            s == inputnumbers@,
            len == s.len(),
            0 <= k <= len,
            forall|i: int| 0 <= i < k ==> #[trigger] s[i] > 0,
        decreases len - k,
    {
        if inputnumbers[k] == 0 {
            assert(!all_positive(s));
            return None;
        }
        k = k + 1;
    }
    let input = reduced(inputnumbers);
    let ghost g = input@;
    proof {
        lemma_seq_min(g);
        lemma_seq_max(g);
    }
    let maximal_input = vec_max(&input);
    let m = vec_min(&input);
    let square = match maximal_input.checked_mul(maximal_input) {
        Some(q) => q,
        None => return None,
    };
    if square == usize::MAX {
        return None;
    }
    if m < 2 {
        return None;
    }
    let (result, aperyset) = first_sieve_run(&input, m, maximal_input);
    if !apery_table_check(&aperyset, m) {
        return None;
    }
    proof {
        lemma_apery_table_new_ok(aperyset@, m);
    }
    Some(Semi::new(result, aperyset, m))
}

/// The sieve before its window first moves: the number under test stands at its own place,
/// the window marks exactly the members below it, the hits are the members from `m` up to
/// it in increasing order, and the Apéry table holds the least member of each non-zero
/// residue met so far.
pub open spec fn first_window(g: Seq<usize>, m: nat, mx: nat, st: SieveState) -> bool {
    &&& m <= st.i < 2 * mx
    &&& st.look == st.i
    &&& st.window.len() == 2 * mx
    &&& forall|p: int| 0 <= p < 2 * mx ==> #[trigger] st.window[p] == if p < st.i && in_sg(g, p as nat) {
        1usize
    } else {
        0usize
    }
    &&& forall|x: usize| #[trigger] st.found.contains(x) <==> (m <= x < st.i && in_sg(g, x as nat))
    &&& strictly_increasing(st.found)
    &&& apery_found(g, m, st.apery, st.i, st.i)
}

/// Some of the first `j` numbers `k` has `i - k` a member.
pub open spec fn hit_among(g: Seq<usize>, i: nat, j: int) -> bool {
    exists|q: int| 0 <= q < j && #[trigger] g[q] <= i && in_sg(g, (i - g[q]) as nat)
}

proof fn lemma_first_scan(g: Seq<usize>, m: nat, mx: nat, st: SieveState, j: nat)
    requires
        positive_gens(g),
        m > 0,
        first_window(g, m, mx, st),
        j <= g.len(),
    ensures
        sieve_scan(g, st, m, j) == if hit_among(g, st.i, j as int) { sieve_hit(st, m) } else { st },
    decreases j,
{
    if j > 0 {
        let p = (j - 1) as nat;
        lemma_first_scan(g, m, mx, st, p);
        let k = g[p as int];
        assert(k > 0);
        if hit_among(g, st.i, p as int) {
            assert(hit_among(g, st.i, j as int)) by {
                let q = choose|q: int| 0 <= q < p && #[trigger] g[q] <= st.i && in_sg(g, (st.i - g[q]) as nat);
                assert(0 <= q < j && g[q] <= st.i && in_sg(g, (st.i - g[q]) as nat));
            }
            assert(sieve_hit(st, m).window[st.look as int] == 1);
        } else {
            assert(st.window[st.look as int] == 0);
            if st.look >= k {
                assert(st.window[st.look - k] == if in_sg(g, (st.i - k) as nat) { 1usize } else { 0usize });
            }
            if hit_among(g, st.i, j as int) {
                let q = choose|q: int| 0 <= q < j && #[trigger] g[q] <= st.i && in_sg(g, (st.i - g[q]) as nat);
                assert(q == p);
            } else {
                if st.look >= k && in_sg(g, (st.i - k) as nat) {
                    assert(0 <= p < j && g[p as int] <= st.i && in_sg(g, (st.i - g[p as int]) as nat));
                }
            }
        }
    }
}

proof fn lemma_first_step(g: Seq<usize>, m: nat, mx: nat, st: SieveState)
    requires
        positive_gens(g),
        is_min_of(g, m),
        m > 0,
        first_window(g, m, mx, st),
        st.i + 1 < 2 * mx,
        2 * mx <= usize::MAX,
    ensures
        first_window(g, m, mx, sieve_step(g, st, m, mx)),
{
    let i = st.i;
    lemma_first_scan(g, m, mx, st, g.len());
    lemma_member_unfold(g, i);
    assert(hit_among(g, i, g.len() as int) == in_sg(g, i)) by {
        if in_sg(g, i) {
            let q = choose|q: int| 0 <= q < g.len() && 0 < #[trigger] g[q] <= i && in_sg(g, (i - g[q]) as nat);
            assert(0 <= q < g.len() && g[q] <= i && in_sg(g, (i - g[q]) as nat));
        }
        if hit_among(g, i, g.len() as int) {
            let q = choose|q: int| 0 <= q < g.len() && #[trigger] g[q] <= i && in_sg(g, (i - g[q]) as nat);
            assert(g[q] > 0);
        }
    }
    let s1 = sieve_scan(g, st, m, g.len());
    let nx = sieve_step(g, st, m, mx);
    assert(nx.i == i + 1 && nx.look == i + 1);
    assert forall|p: int| 0 <= p < 2 * mx implies #[trigger] nx.window[p] == if p < nx.i && in_sg(g, p as nat) {
        1usize
    } else {
        0usize
    } by {
        assert(st.window[p] == if p < st.i && in_sg(g, p as nat) { 1usize } else { 0usize });
    }
    assert forall|x: usize| #[trigger] nx.found.contains(x) <==> (m <= x < nx.i && in_sg(g, x as nat)) by {
        if in_sg(g, i) {
            assert(nx.found == st.found.push(i as usize));
            if x == i {
                assert(nx.found[st.found.len() as int] == x);
            } else {
                if nx.found.contains(x) {
                    let k = choose|k: int| 0 <= k < nx.found.len() && nx.found[k] == x;
                    assert(st.found[k] == x);
                }
                if st.found.contains(x) {
                    let k = choose|k: int| 0 <= k < st.found.len() && st.found[k] == x;
                    assert(nx.found[k] == x);
                }
            }
        }
    }
    assert(strictly_increasing(nx.found)) by {
        if in_sg(g, i) {
            assert forall|a: int, b: int| 0 <= a < b < nx.found.len() implies nx.found[a] < nx.found[b] by {
                if b == st.found.len() {
                    assert(st.found.contains(st.found[a]));
                }
            }
        }
    }
    lemma_found_step(g, m, st.apery, nx.apery, i);
}

proof fn lemma_first_from(g: Seq<usize>, m: nat, mx: nat, st: SieveState, fuel: nat)
    requires
        positive_gens(g),
        is_min_of(g, m),
        m > 0,
        2 * mx <= usize::MAX,
        first_window(g, m, mx, st),
        sieve_from(g, st, m, mx, fuel).i < 2 * mx,
    ensures
        first_window(g, m, mx, sieve_from(g, st, m, mx, fuel)),
    decreases fuel,
{
    if fuel > 0 && sieve_goes_on(st, m, mx) {
        let nx = sieve_step(g, st, m, mx);
        lemma_from_advances(g, nx, m, mx, (fuel - 1) as nat);
        lemma_first_step(g, m, mx, st);
        lemma_first_from(g, m, mx, nx, (fuel - 1) as nat);
    }
}

proof fn lemma_from_advances(g: Seq<usize>, st: SieveState, m: nat, mx: nat, fuel: nat)
    ensures
        sieve_from(g, st, m, mx, fuel).i >= st.i,
    decreases fuel,
{
    if fuel > 0 && sieve_goes_on(st, m, mx) {
        lemma_from_advances(g, sieve_step(g, st, m, mx), m, mx, (fuel - 1) as nat);
    }
}

/// While its window has not moved, the first sieve is exact: where it stops before
/// `2 * mx` its hits are the members from `m` up to where it stopped, in increasing
/// order, and (on inputs it accepts) its Apéry table is the Apéry set modulo `m`.
pub proof fn lemma_first_sieve_before_move(s: Seq<usize>)
    requires
        old_semi_ok(s),
        sieve_end(reduce(s)).i < 2 * seq_max(reduce(s)),
    ensures
        forall|x: usize| #[trigger] sieve_end(reduce(s)).found.contains(x)
            <==> (seq_min(reduce(s)) <= x < sieve_end(reduce(s)).i && in_sg(reduce(s), x as nat)),
        strictly_increasing(sieve_end(reduce(s)).found),
        sieve_end(reduce(s)).apery == apery_seq(reduce(s), seq_min(reduce(s))),
{
    let g = reduce(s);
    let m = seq_min(g);
    let mx = seq_max(g);
    lemma_reduce_positive(s);
    lemma_seq_min(g);
    lemma_seq_max(g);
    let km = choose|k: int| 0 <= k < g.len() && g[k] == m;
    assert(m <= mx);
    assert(2 * mx <= mx * mx + 1) by (nonlinear_arith);
    let st = sieve_start(m, mx);
    assert(first_window(g, m, mx, st)) by {
        assert forall|p: int| 0 <= p < 2 * mx implies #[trigger] st.window[p] == if p < st.i && in_sg(g, p as nat) {
            1usize
        } else {
            0usize
        } by {
            if 0 < p < m {
                lemma_below_min(g, m, p as nat);
            }
        }
        assert forall|r: int| 1 <= r < m implies (if #[trigger] st.apery[r] == 0 {
            forall|y: nat| y < st.i && y % m == r ==> !#[trigger] in_sg(g, y)
        } else {
            is_apery(g, m, r as nat, st.apery[r] as nat) && st.apery[r] < st.i
        }) by {
            assert forall|y: nat| y < st.i && y % m == r implies !#[trigger] in_sg(g, y) by {
                if y > 0 {
                    lemma_below_min(g, m, y);
                } else {
                    lemma_small_mod(0, m);
                }
            }
        }
        assert(strictly_increasing(st.found));
    }
    lemma_first_from(g, m, mx, st, mx * mx + 1);
    let fin = sieve_end(g);
    lemma_apery_zero(g, m);
    lemma_apery_is(g, m, 0, 0);
    assert forall|r: int| 0 <= r < m implies #[trigger] fin.apery[r] == apery_seq(g, m)[r] by {
        if r > 0 {
            assert(fin.apery[r] > m);
            lemma_apery_is(g, m, r as nat, fin.apery[r] as nat);
        }
    }
    assert(fin.apery =~= apery_seq(g, m));
}

/// Testing the number under test against `k` hits.
pub open spec fn try_hits(st: SieveState, k: usize) -> bool {
    st.look >= k && st.window[st.look - k] == 1 && st.window[st.look as int] == 0
}

/// Some of the first `j` numbers of `g` hits.
pub open spec fn hits_among(g: Seq<usize>, st: SieveState, j: int) -> bool {
    exists|q: int| 0 <= q < j && #[trigger] try_hits(st, g[q])
}

/// Testing against several numbers hits at most once: the result is one hit or nothing,
/// whichever number hits.
proof fn lemma_scan_any(g: Seq<usize>, st: SieveState, m: nat, j: nat)
    requires
        st.look < st.window.len(),
        j <= g.len(),
    ensures
        sieve_scan(g, st, m, j) == if hits_among(g, st, j as int) { sieve_hit(st, m) } else { st },
    decreases j,
{
    if j > 0 {
        let p = (j - 1) as nat;
        lemma_scan_any(g, st, m, p);
        if hits_among(g, st, p as int) {
            let q = choose|q: int| 0 <= q < p && #[trigger] try_hits(st, g[q]);
            assert(0 <= q < j && try_hits(st, g[q]));
            assert(sieve_hit(st, m).window[st.look as int] == 1);
        } else if try_hits(st, g[p as int]) {
            assert(0 <= p < j && try_hits(st, g[p as int]));
        } else {
            assert forall|q: int| 0 <= q < j implies !#[trigger] try_hits(st, g[q]) by {
                if q < p {
                    assert(!hits_among(g, st, p as int));
                }
            }
        }
    }
}

/// The states that the sieve goes through: a window of `2 mx` places and a place in
/// `m..2 mx`.
pub open spec fn sieve_shape(st: SieveState, m: nat, mx: nat) -> bool {
    &&& st.window.len() == 2 * mx
    &&& m <= st.look < 2 * mx
}

/// Generators with the same numbers take the sieve through the same states.
proof fn lemma_sieve_same_elements(a: Seq<usize>, b: Seq<usize>, st: SieveState, m: nat, mx: nat, fuel: nat)
    requires
        same_elements(a, b),
        0 < m <= mx,
        sieve_shape(st, m, mx),
    ensures
        sieve_from(a, st, m, mx, fuel) == sieve_from(b, st, m, mx, fuel),
    decreases fuel,
{
    if fuel > 0 && sieve_goes_on(st, m, mx) {
        lemma_scan_any(a, st, m, a.len());
        lemma_scan_any(b, st, m, b.len());
        assert(hits_among(a, st, a.len() as int) == hits_among(b, st, b.len() as int)) by {
            if hits_among(a, st, a.len() as int) {
                let q = choose|q: int| 0 <= q < a.len() && #[trigger] try_hits(st, a[q]);
                assert(b.contains(a[q]));
                let r = choose|r: int| 0 <= r < b.len() && b[r] == a[q];
                assert(try_hits(st, b[r]));
            }
            if hits_among(b, st, b.len() as int) {
                let q = choose|q: int| 0 <= q < b.len() && #[trigger] try_hits(st, b[q]);
                assert(a.contains(b[q]));
                let r = choose|r: int| 0 <= r < a.len() && a[r] == b[q];
                assert(try_hits(st, a[r]));
            }
        }
        let nx = sieve_step(a, st, m, mx);
        assert(sieve_step(b, st, m, mx) == nx);
        assert(sieve_shape(nx, m, mx));
        lemma_sieve_same_elements(a, b, nx, m, mx, (fuel - 1) as nat);
    }
}

/// The first sieve depends on the numbers only through their reduced form's elements: a
/// permutation of the input, with repetitions or with every number multiplied by `k`, runs
/// the same sieve, is accepted exactly when the input is, and gives the same result.
pub proof fn lemma_first_sieve_invariant(x: Seq<usize>, y: Seq<usize>, k: nat)
    requires
        x.len() > 0,
        y.len() > 0,
        all_positive(x),
        same_elements(x, y),
        k > 0,
        forall|i: int| 0 <= i < y.len() ==> k * #[trigger] y[i] <= usize::MAX,
    ensures
        sieve_end(reduce(scaled(y, k))) == sieve_end(reduce(x)),
        seq_min(reduce(scaled(y, k))) == seq_min(reduce(x)),
        old_semi_ok(scaled(y, k)) == old_semi_ok(x),
{
    let z = scaled(y, k);
    assert(all_positive(y)) by {
        assert forall|i: int| 0 <= i < y.len() implies #[trigger] y[i] > 0 by {
            assert(x.contains(y[i]));
        }
    }
    lemma_reduce_same_elements(x, y);
    lemma_reduce_scaled(y, k);
    lemma_gcd_seq_scaled(y, k);
    let gx = reduce(x);
    let gz = reduce(z);
    lemma_reduce_positive(x);
    lemma_reduce_positive(z);
    assert(same_elements(gx, gz));
    lemma_seq_min(gx);
    lemma_seq_max(gx);
    lemma_seq_min(gz);
    lemma_seq_max(gz);
    let i1 = choose|i: int| 0 <= i < gx.len() && gx[i] == seq_min(gx);
    let i2 = choose|i: int| 0 <= i < gz.len() && gz[i] == seq_min(gz);
    let j1 = choose|i: int| 0 <= i < gx.len() && gx[i] == seq_max(gx);
    let j2 = choose|i: int| 0 <= i < gz.len() && gz[i] == seq_max(gz);
    assert(gz.contains(gx[i1]));
    assert(gx.contains(gz[i2]));
    assert(gz.contains(gx[j1]));
    assert(gx.contains(gz[j2]));
    let m = seq_min(gx);
    let mx = seq_max(gx);
    assert(m <= mx);
    assert(m > 0) by {
        assert(positive_gens(gx));
    }
    assert(sieve_shape(sieve_start(m, mx), m, mx));
    lemma_sieve_same_elements(gx, gz, sieve_start(m, mx), m, mx, mx * mx + 1);
    assert(all_positive(z)) by {
        assert(positive_gens(gz));
    }
}

/// `semi` gives the same data for a permutation of its input, with repetitions or with
/// every number multiplied by `k`, and accepts one exactly when it accepts the other.
pub proof fn lemma_first_semi_invariant(x: Seq<usize>, y: Seq<usize>, k: nat, rx: Semi, rz: Semi)
    requires
        x.len() > 0,
        y.len() > 0,
        all_positive(x),
        same_elements(x, y),
        k > 0,
        forall|i: int| 0 <= i < y.len() ==> k * #[trigger] y[i] <= usize::MAX,
        old_semi_post(x, rx),
        old_semi_post(scaled(y, k), rz),
    ensures
        old_semi_ok(scaled(y, k)) == old_semi_ok(x),
        rz.apery@ == rx.apery@,
        rz.g1 == rx.g1,
        rz.max_a == rx.max_a,
        rz.sum_a == rx.sum_a,
        rz.double_avg_a == rx.double_avg_a,
        rz.maxgap == rx.maxgap,
        rz.c == rx.c,
        rz.count_set == rx.count_set,
        rz.count_gap == rx.count_gap,
        rz.a1 == rx.a1,
        rz.e == rx.e,
        rz.gen_set@ == rx.gen_set@,
{
    lemma_first_sieve_invariant(x, y, k);
}

proof fn lemma_sieve_from_stop(g: Seq<usize>, st: SieveState, m: nat, mx: nat, fuel: nat)
    requires
        st.i <= mx * mx + 1,
        st.i + fuel >= mx * mx + 1,
    ensures
        sieve_from(g, st, m, mx, fuel).i <= mx * mx + 1,
        sieve_from(g, st, m, mx, fuel).run < m ==> sieve_from(g, st, m, mx, fuel).i == mx * mx + 1,
    decreases fuel,
{
    if fuel > 0 && sieve_goes_on(st, m, mx) {
        let next = sieve_step(g, st, m, mx);
        assert(next.i == st.i + 1);
        lemma_sieve_from_stop(g, next, m, mx, (fuel - 1) as nat);
    }
}

/// Where the first sieve stops: it tests every number from `m` on, and stops either after
/// a run of `m` hits or, failing that, after testing `mx * mx` (the next number under
/// test is `mx * mx + 1`), `m` and `mx` the least and largest reduced numbers.
pub proof fn lemma_first_sieve_stop(g: Seq<usize>)
    requires
        g.len() > 0,
        positive_gens(g),
    ensures
        seq_min(g) <= sieve_end(g).i <= seq_max(g) * seq_max(g) + 1,
        sieve_end(g).run < seq_min(g) ==> sieve_end(g).i == seq_max(g) * seq_max(g) + 1,
{
    let m = seq_min(g);
    let mx = seq_max(g);
    lemma_seq_min(g);
    lemma_seq_max(g);
    let k = choose|k: int| 0 <= k < g.len() && g[k] == m;
    assert(m <= g[k] <= mx);
    assert(m <= mx * mx + 1) by (nonlinear_arith)
        requires m <= mx;
    lemma_sieve_from_stop(g, sieve_start(m, mx), m, mx, mx * mx + 1);
    lemma_sieve_from_monotone(g, sieve_start(m, mx), m, mx, mx * mx + 1);
}

proof fn lemma_sieve_from_monotone(g: Seq<usize>, st: SieveState, m: nat, mx: nat, fuel: nat)
    ensures
        sieve_from(g, st, m, mx, fuel).i >= st.i,
    decreases fuel,
{
    if fuel > 0 && sieve_goes_on(st, m, mx) {
        let next = sieve_step(g, st, m, mx);
        assert(next.i == st.i + 1);
        lemma_sieve_from_monotone(g, next, m, mx, (fuel - 1) as nat);
    }
}

} // verus!
