//! Primes in an arithmetic progression, and the windows of consecutive ones whose
//! semigroups the batch runs compute: the primes of at least `factor1` times the `n`-th
//! prime of the progression and below `factor2` times it.
use vstd::prelude::*;
use vstd::arithmetic::div_mod::*;

verus! {

/// `p` is a prime.
pub open spec fn is_prime(p: nat) -> bool {
    p >= 2 && forall|d: nat| 2 <= d < p ==> #[trigger] (p % d) != 0
}

/// `v` lists the first primes in increasing order, none left out.
pub open spec fn first_primes_of(v: Seq<usize>) -> bool {
    &&& forall|i: int| 0 <= i < v.len() ==> #[trigger] is_prime(v[i] as nat)
    &&& forall|i: int, j: int| 0 <= i < j < v.len() ==> v[i] < v[j]
    &&& v.len() > 0 ==> v[0] == 2
    &&& forall|i: int, q: nat| #![trigger v[i], is_prime(q)] 0 <= i < v.len() - 1 && v[i] < q < v[i + 1] ==> !is_prime(q)
}

/// No prime lies above `p` in the range of `usize`.
pub open spec fn last_prime_in_range(p: nat) -> bool {
    forall|q: nat| p < q <= usize::MAX ==> !#[trigger] is_prime(q)
}

/// Calls `primal::Primes::all().take(n)` and collects it.  primal documents `Primes::all`
/// as the sequence 2, 3, 5, 7, 11, ... of all primes, and its iterator sieves on to the end
/// of `usize`; the contract states that the result is the first `n` primes, or all primes
/// of `usize` where there are fewer.
#[verifier::external_body]
fn first_primes(n: usize) -> (v: Vec<usize>)
    ensures
        first_primes_of(v@),
        v@.len() == n || (0 < v@.len() < n && last_prime_in_range(v@.last() as nat)),
{
    primal::Primes::all().take(n).collect()
}

/// The elements of `v` congruent to `residue` modulo `modul`, in order.
pub open spec fn in_class(v: Seq<usize>, modul: nat, residue: nat) -> Seq<usize>
    decreases v.len(),
{
    if v.len() == 0 {
        Seq::empty()
    } else {
        let rest = in_class(v.drop_last(), modul, residue);
        if v.last() as nat % modul == residue {
            rest.push(v.last())
        } else {
            rest
        }
    }
}

/// Keeps the elements of `v` congruent to `residue` modulo `modul`.
pub fn filter_class(v: &Vec<usize>, modul: usize, residue: usize) -> (res: Vec<usize>)
    requires
        modul > 0,
    ensures
        res@ == in_class(v@, modul as nat, residue as nat),
{
    let mut res: Vec<usize> = Vec::new();
    let mut k: usize = 0;
    while k < v.len()
        invariant
            0 <= k <= v@.len(),
            modul > 0,
            res@ == in_class(v@.take(k as int), modul as nat, residue as nat),
        decreases v@.len() - k,
    {
        assert(v@.take(k + 1).drop_last() =~= v@.take(k as int));
        if residue == v[k] % modul {
            res.push(v[k]);
        }
        k = k + 1;
    }
    assert(v@.take(v@.len() as int) =~= v@);
    res
}

/// The primes among the first `count` primes (all primes of `usize` where there are fewer)
/// that are congruent to `residue` modulo `modul`, in increasing order.
pub fn primes_in_class(count: usize, modul: usize, residue: usize) -> (res: Vec<usize>)
    requires
        modul > 0,
    ensures
        exists|ps: Seq<usize>| #![trigger first_primes_of(ps)]
            first_primes_of(ps)
            && (ps.len() == count || (0 < ps.len() < count && last_prime_in_range(ps.last() as nat)))
            && res@ == in_class(ps, modul as nat, residue as nat),
{
    let ps = first_primes(count);
    let res = filter_class(&ps, modul, residue);
    assert(first_primes_of(ps@));
    res
}

/// The least index from `start` on whose element reaches `factor` times the element at
/// `start`; `start` itself for the factor 1.
pub open spec fn reach_index(s: Seq<usize>, start: int, factor: nat, j: int) -> bool {
    &&& start <= j < s.len()
    &&& s[j] >= factor * s[start]
    &&& forall|k: int| start <= k < j ==> #[trigger] s[k] < factor * s[start]
}

/// Some index from `start` on holds an element that reaches `factor` times the one at
/// `start`.
pub open spec fn reachable(s: Seq<usize>, start: int, factor: nat) -> bool {
    exists|j: int| start <= j < s.len() && #[trigger] s[j] >= factor * s[start]
}

/// The first index from `start` on whose element is at least `factor` times the element at
/// `start` (`start` itself for the factor 1).
pub fn findmaxindex(s: &[usize], start: usize, factor: usize) -> (res: usize)
    requires
        start < s@.len(),
        factor != 1 ==> factor * s@[start as int] <= usize::MAX && reachable(s@, start as int, factor as nat),
    ensures
        res < s@.len(),
        factor == 1 ==> res == start,
        factor != 1 ==> reach_index(s@, start as int, factor as nat, res as int),
{
    if 1 == factor {
        start
    } else {
        let bound = factor * s[start];
        let mut max = start;
        while s[max] < bound
            invariant
                start <= max < s@.len(),
                bound == factor * s@[start as int],
                reachable(s@, start as int, factor as nat),
                forall|k: int| start <= k < max ==> #[trigger] s@[k] < bound,
            decreases s@.len() - max,
        {
            if max + 1 >= s.len() {
                proof {
                    let j = choose|j: int| start <= j < s@.len() && #[trigger] s@[j] >= factor * s@[start as int];
                    assert(j <= max);
                    if j < max {
                        assert(s@[j] < bound);
                    }
                }
            }
            max = max + 1;
        }
        max
    }
}

/// The indices of one row of a batch run: the generators are the primes at
/// `minindex..maxindex`, those from `factor1` times the `skip`-th prime on and below
/// `factor2` times it; the generator lists tried are those at `minindex..i` for `i` in
/// `startindex..=maxindex`.
pub struct RowIndices {
    pub minindex: usize,
    pub maxindex: usize,
    pub startindex: usize,
}

/// The indices of the row of `skip`: `minindex` and `maxindex` are the first indices
/// reaching `factor1` and `factor2` times the `skip`-th prime (`skip` itself for a factor
/// 1), so the primes at `minindex..maxindex` lie below `factor2` times it; the lists tried
/// end from `minindex + 2` on when every intermediate list is wanted, at `maxindex` alone
/// otherwise.
pub fn row_indices(primes: &[usize], skip: usize, factor1: usize, factor2: usize, iterate: bool) -> (res: RowIndices)
    requires
        skip < primes@.len() < usize::MAX - 1,
        factor1 != 1 ==> factor1 * primes@[skip as int] <= usize::MAX && reachable(primes@, skip as int, factor1 as nat),
        factor2 != 1 ==> factor2 * primes@[skip as int] <= usize::MAX && reachable(primes@, skip as int, factor2 as nat),
    ensures
        factor1 == 1 ==> res.minindex == skip,
        factor1 != 1 ==> reach_index(primes@, skip as int, factor1 as nat, res.minindex as int),
        factor2 == 1 ==> res.maxindex == skip,
        factor2 != 1 ==> reach_index(primes@, skip as int, factor2 as nat, res.maxindex as int),
        factor2 != 1 ==> forall|k: int| res.minindex <= k < res.maxindex ==> #[trigger] primes@[k] < factor2 * primes@[skip as int],
        res.startindex == if iterate { res.minindex + 2 } else { res.maxindex as int },
{
    let minindex = findmaxindex(primes, skip, factor1);
    let maxindex = findmaxindex(primes, skip, factor2);
    let startindex = if iterate { minindex + 2 } else { maxindex };
    RowIndices { minindex, maxindex, startindex }
}

/// The number of rows of each worker: `(stop - start) / cores`.
pub open spec fn task_interval(cores: usize, start: usize, stop: usize) -> nat {
    (stop - start) as nat / (cores as nat)
}

/// The ranges of rows that the batch run hands to each of `cores` workers: `cores`
/// consecutive ranges of `(stop - start) / cores` rows from `start` on, the last one
/// running on to `stop`, so that together they cover `start..stop` exactly once.
pub fn split_tasks(cores: usize, start: usize, stop: usize) -> (tasks: Vec<(usize, usize)>)
    requires
        cores > 0,
        start <= stop,
    ensures
        tasks@.len() == cores,
        forall|t: int| 0 <= t < cores ==> #[trigger] tasks@[t] == (
            (start + t * task_interval(cores, start, stop)) as usize,
            if t == cores - 1 { stop } else { (start + (t + 1) * task_interval(cores, start, stop)) as usize },
        ),
        tasks@[0].0 == start,
        tasks@[cores - 1].1 == stop,
        forall|t: int| 0 <= t < cores - 1 ==> #[trigger] tasks@[t].1 == tasks@[t + 1].0,
        forall|t: int| 0 <= t < cores ==> #[trigger] tasks@[t].0 <= tasks@[t].1,
{
    let interval = (stop - start) / cores;
    proof {
        lemma_fundamental_div_mod((stop - start) as int, cores as int);
        lemma_mod_bound((stop - start) as int, cores as int);
        assert(cores * interval <= stop - start) by (nonlinear_arith)
            requires stop - start == cores * interval + (stop - start) % (cores as int), (stop - start) % (cores as int) >= 0;
    }
    let mut tasks: Vec<(usize, usize)> = Vec::new();
    let mut ti: usize = 0;
    while ti < cores
        invariant
            interval == task_interval(cores, start, stop),
            cores > 0,
            start <= stop,
            start + cores * interval <= stop,
            0 <= ti <= cores,
            tasks@.len() == ti,
            forall|t: int| 0 <= t < ti ==> #[trigger] tasks@[t] == (
                (start + t * interval) as usize,
                if t == cores - 1 { stop } else { (start + (t + 1) * interval) as usize },
            ),
        decreases cores - ti,
    {
        assert((ti + 1) * interval <= cores * interval) by (nonlinear_arith)
            requires ti + 1 <= cores;
        assert(ti * interval <= (ti + 1) * interval) by (nonlinear_arith);
        let lo = start + ti * interval;
        let hi = if ti == cores - 1 { stop } else { start + (ti + 1) * interval };
        tasks.push((lo, hi));
        ti = ti + 1;
    }
    assert forall|t: int| 0 <= t < cores implies #[trigger] tasks@[t].0 <= tasks@[t].1 by {
        assert(t * interval <= (t + 1) * interval) by (nonlinear_arith);
        assert((t + 1) * interval <= cores * interval) by (nonlinear_arith) requires t + 1 <= cores;
    }
    assert forall|t: int| 0 <= t < cores - 1 implies #[trigger] tasks@[t].1 == tasks@[t + 1].0 by {
        assert((t + 1) * interval <= cores * interval) by (nonlinear_arith) requires t + 1 <= cores;
        assert(tasks@[t + 1].0 == start + (t + 1) * interval);
    }
    tasks
}

} // verus!
