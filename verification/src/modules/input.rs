//! Reading the form fields: the lists of numbers and the number of samples.
//!
//! The numbers field holds lists separated by `;`, `,`, `#` or line breaks; each list
//! holds numbers separated by white space.  A word that is not a number counts as 2,
//! and numbers below 2 are dropped.  The samples field holds one number, 1 by default.
use vstd::prelude::*;

verus! {

/// White space as `char::is_whitespace` has it: the Unicode property `White_Space`.
pub open spec fn is_ws(c: char) -> bool {
    let u = c as u32;
    ||| 0x9 <= u <= 0xd
    ||| u == 0x20
    ||| u == 0x85
    ||| u == 0xa0
    ||| u == 0x1680
    ||| 0x2000 <= u <= 0x200a
    ||| u == 0x2028
    ||| u == 0x2029
    ||| u == 0x202f
    ||| u == 0x205f
    ||| u == 0x3000
}

/// The characters that separate the lists.
pub open spec fn is_sep(c: char) -> bool {
    c == ';' || c == ',' || c == '#' || c == '\n' || c == '\r'
}

/// `s` cut at every separator, the separators dropped: one piece more than separators.
pub open spec fn split_at_seps(s: Seq<char>) -> Seq<Seq<char>>
    decreases s.len(),
{
    if s.len() == 0 {
        seq![Seq::<char>::empty()]
    } else {
        let rest = split_at_seps(s.drop_last());
        if is_sep(s.last()) {
            rest.push(Seq::<char>::empty())
        } else {
            rest.update(rest.len() - 1, rest.last().push(s.last()))
        }
    }
}

/// `s` without its leading white space.
pub open spec fn trim_start(s: Seq<char>) -> Seq<char>
    decreases s.len(),
{
    if s.len() > 0 && is_ws(s[0]) {
        trim_start(s.drop_first())
    } else {
        s
    }
}

/// `s` without its trailing white space.
pub open spec fn trim_end(s: Seq<char>) -> Seq<char>
    decreases s.len(),
{
    if s.len() > 0 && is_ws(s.last()) {
        trim_end(s.drop_last())
    } else {
        s
    }
}

/// `s` without leading and trailing white space.
pub open spec fn trim(s: Seq<char>) -> Seq<char> {
    trim_end(trim_start(s))
}

/// The maximal runs of characters other than white space, in order.
pub open spec fn words(s: Seq<char>) -> Seq<Seq<char>>
    decreases s.len(),
{
    if s.len() == 0 {
        Seq::empty()
    } else {
        let rest = words(s.drop_last());
        if is_ws(s.last()) {
            rest
        } else if s.len() >= 2 && !is_ws(s[s.len() - 2]) {
            rest.update(rest.len() - 1, rest.last().push(s.last()))
        } else {
            rest.push(seq![s.last()])
        }
    }
}

/// An ASCII digit.
pub open spec fn is_digit(c: char) -> bool {
    48 <= (c as u32) <= 57
}

/// The value of a string of decimal digits.
pub open spec fn digits_value(s: Seq<char>) -> nat
    decreases s.len(),
{
    if s.len() == 0 {
        0
    } else {
        digits_value(s.drop_last()) * 10 + ((s.last() as u32) - 48) as nat
    }
}

/// `s` after an optional leading `+`.
pub open spec fn unsigned_digits(s: Seq<char>) -> Seq<char> {
    if s.len() > 0 && s[0] == '+' {
        s.drop_first()
    } else {
        s
    }
}

/// What `usize::from_str` accepts: an optional `+`, then one or more ASCII digits whose
/// value fits in a `usize`.
pub open spec fn parses(s: Seq<char>) -> bool {
    let d = unsigned_digits(s);
    &&& d.len() > 0
    &&& forall|i: int| 0 <= i < d.len() ==> #[trigger] is_digit(d[i])
    &&& digits_value(d) <= usize::MAX
}

/// The number that `s` reads as, or `default` where `usize::from_str` refuses it.
pub open spec fn parse_or(s: Seq<char>, default: nat) -> nat {
    if parses(s) {
        digits_value(unsigned_digits(s))
    } else {
        default
    }
}

/// The numbers of a list of words: each word read as a number (2 where it is none),
/// those below 2 dropped.
pub open spec fn numbers_in(ws: Seq<Seq<char>>) -> Seq<usize>
    decreases ws.len(),
{
    if ws.len() == 0 {
        Seq::empty()
    } else {
        let rest = numbers_in(ws.drop_last());
        let n = parse_or(ws.last(), 2);
        if n > 1 {
            rest.push(n as usize)
        } else {
            rest
        }
    }
}

/// The pieces that are not empty once trimmed, trimmed.
pub open spec fn nonempty_trimmed(ps: Seq<Seq<char>>) -> Seq<Seq<char>>
    decreases ps.len(),
{
    if ps.len() == 0 {
        Seq::empty()
    } else {
        let rest = nonempty_trimmed(ps.drop_last());
        let t = trim(ps.last());
        if t.len() > 0 {
            rest.push(t)
        } else {
            rest
        }
    }
}

/// The lists of the numbers field, trimmed, empty ones dropped.
pub open spec fn input_lists(s: Seq<char>) -> Seq<Seq<char>> {
    nonempty_trimmed(split_at_seps(s))
}

/// The numbers of one list.
pub open spec fn list_numbers(t: Seq<char>) -> Seq<usize> {
    numbers_in(words(t))
}

/// The characters of `s`, in order.
pub fn chars_of(s: &str) -> (v: Vec<char>)
    ensures
        v@ == s@,
{
    let mut v: Vec<char> = Vec::new();
    for c in it: s.chars()
        invariant
            v@ == it.seq().take(it.index() as int),
    {
        v.push(c);
    }
    v
}

/// Whether `c` is white space.
pub fn is_white(c: char) -> (b: bool)
    ensures
        b == is_ws(c),
{
    let u = c as u32;
    (0x9 <= u && u <= 0xd) || u == 0x20 || u == 0x85 || u == 0xa0 || u == 0x1680 || (0x2000 <= u && u <= 0x200a)
        || u == 0x2028 || u == 0x2029 || u == 0x202f || u == 0x205f || u == 0x3000
}

proof fn lemma_split_nonempty(s: Seq<char>)
    ensures
        split_at_seps(s).len() >= 1,
    decreases s.len(),
{
    if s.len() > 0 {
        lemma_split_nonempty(s.drop_last());
    }
}

/// The pieces of `v` between separators.
fn split_pieces(v: &Vec<char>) -> (ps: Vec<Vec<char>>)
    ensures
        ps@.len() == split_at_seps(v@).len(),
        forall|i: int| 0 <= i < ps@.len() ==> #[trigger] ps@[i]@ == split_at_seps(v@)[i],
{
    let mut ps: Vec<Vec<char>> = Vec::new();
    let mut cur: Vec<char> = Vec::new();
    let mut k: usize = 0;
    while k < v.len()
        invariant
            0 <= k <= v@.len(),
            ps@.len() + 1 == split_at_seps(v@.take(k as int)).len(),
            forall|i: int| 0 <= i < ps@.len() ==> #[trigger] ps@[i]@ == split_at_seps(v@.take(k as int))[i],
            cur@ == split_at_seps(v@.take(k as int)).last(),
        decreases v@.len() - k,
    {
        let ghost pre = v@.take(k as int);
        let ghost next = v@.take(k + 1);
        assert(next.drop_last() =~= pre);
        proof {
            lemma_split_nonempty(pre);
        }
        let c = v[k];
        if c == ';' || c == ',' || c == '#' || c == '\n' || c == '\r' {
            ps.push(cur);
            cur = Vec::new();
            assert(cur@ =~= Seq::<char>::empty());
        } else {
            cur.push(c);
        }
        k = k + 1;
    }
    assert(v@.take(v@.len() as int) =~= v@);
    ps.push(cur);
    ps
}

proof fn lemma_trim_start_step(s: Seq<char>, a: int)
    requires
        0 <= a < s.len(),
        is_ws(s[a]),
    ensures
        trim_start(s.subrange(a, s.len() as int)) == trim_start(s.subrange(a + 1, s.len() as int)),
{
    assert(s.subrange(a, s.len() as int).drop_first() =~= s.subrange(a + 1, s.len() as int));
}

proof fn lemma_trim_end_step(s: Seq<char>, a: int, b: int)
    requires
        0 <= a < b <= s.len(),
        is_ws(s[b - 1]),
    ensures
        trim_end(s.subrange(a, b)) == trim_end(s.subrange(a, b - 1)),
{
    assert(s.subrange(a, b).drop_last() =~= s.subrange(a, b - 1));
}

/// `p` without leading and trailing white space.
fn trim_chars(p: &Vec<char>) -> (t: Vec<char>)
    ensures
        t@ == trim(p@),
{
    let n = p.len();
    let mut a: usize = 0;
    assert(p@.subrange(0, n as int) =~= p@);
    while a < n && is_white(p[a])
        invariant
            n == p@.len(),
            0 <= a <= n,
            trim_start(p@) == trim_start(p@.subrange(a as int, n as int)),
        decreases n - a,
    {
        proof {
            lemma_trim_start_step(p@, a as int);
        }
        a = a + 1;
    }
    assert(trim_start(p@) == p@.subrange(a as int, n as int));
    let mut b: usize = n;
    while b > a && is_white(p[b - 1])
        invariant
            n == p@.len(),
            0 <= a <= b <= n,
            trim(p@) == trim_end(p@.subrange(a as int, b as int)),
        decreases b - a,
    {
        proof {
            lemma_trim_end_step(p@, a as int, b as int);
        }
        b = b - 1;
    }
    assert(trim(p@) == p@.subrange(a as int, b as int));
    let mut t: Vec<char> = Vec::new();
    let mut k: usize = a;
    while k < b
        invariant
            n == p@.len(),
            0 <= a <= k <= b <= n,
            t@ =~= p@.subrange(a as int, k as int),
        decreases b - k,
    {
        t.push(p[k]);
        k = k + 1;
    }
    t
}

/// The words of `t`: its maximal runs of characters other than white space.
fn words_of(t: &Vec<char>) -> (ws: Vec<Vec<char>>)
    ensures
        ws@.len() == words(t@).len(),
        forall|i: int| 0 <= i < ws@.len() ==> #[trigger] ws@[i]@ == words(t@)[i],
{
    let mut ws: Vec<Vec<char>> = Vec::new();
    let mut cur: Vec<char> = Vec::new();
    let mut in_word = false;
    let mut k: usize = 0;
    while k < t.len()
        invariant
            0 <= k <= t@.len(),
            in_word == (k > 0 && !is_ws(t@[k - 1])),
            in_word ==> ws@.len() + 1 == words(t@.take(k as int)).len() && cur@ == words(t@.take(k as int)).last(),
            !in_word ==> ws@.len() == words(t@.take(k as int)).len() && cur@ == Seq::<char>::empty(),
            forall|i: int| 0 <= i < ws@.len() ==> #[trigger] ws@[i]@ == words(t@.take(k as int))[i],
        decreases t@.len() - k,
    {
        let ghost pre = t@.take(k as int);
        let ghost next = t@.take(k + 1);
        assert(next.drop_last() =~= pre);
        let c = t[k];
        if is_white(c) {
            if in_word {
                ws.push(cur);
                cur = Vec::new();
            }
            in_word = false;
        } else {
            cur.push(c);
            in_word = true;
            proof {
                if k > 0 && !is_ws(t@[k - 1]) {
                    assert(next[next.len() - 2] == t@[k - 1]);
                } else {
                    assert(cur@ =~= seq![c]);
                }
            }
        }
        k = k + 1;
    }
    assert(t@.take(t@.len() as int) =~= t@);
    if in_word {
        ws.push(cur);
    }
    ws
}

proof fn lemma_digits_prefix(d: Seq<char>, j: int)
    requires
        0 <= j <= d.len(),
        forall|i: int| 0 <= i < d.len() ==> #[trigger] is_digit(d[i]),
    ensures
        digits_value(d.take(j)) <= digits_value(d),
    decreases d.len() - j,
{
    if j < d.len() {
        lemma_digits_prefix(d, j + 1);
        assert(d.take(j + 1).drop_last() =~= d.take(j));
        assert(is_digit(d[j]));
    } else {
        assert(d.take(j) =~= d);
    }
}

/// The number that `w` reads as, or `default` where `usize::from_str` refuses it.
fn parse_or_default(w: &Vec<char>, default: usize) -> (n: usize)
    ensures
        n == parse_or(w@, default as nat),
{
    let len = w.len();
    let start: usize = if len > 0 && w[0] == '+' { 1 } else { 0 };
    let ghost d = unsigned_digits(w@);
    assert(d =~= w@.subrange(start as int, len as int));
    if start == len {
        return default;
    }
    let mut val: usize = 0;
    let mut k: usize = start;
    assert(d.take(0) =~= Seq::<char>::empty());
    while k < len
        invariant
            len == w@.len(),
            d == w@.subrange(start as int, len as int),
            d == unsigned_digits(w@),
            start <= k <= len,
            val == digits_value(d.take(k - start)),
            forall|i: int| 0 <= i < k - start ==> #[trigger] is_digit(d[i]),
        decreases len - k,
    {
        let c = w[k];
        let u = c as u32;
        assert(d[k - start] == c);
        if u < 48 || u > 57 {
            assert(!is_digit(d[k - start]));
            return default;
        }
        let dgt = (u - 48) as usize;
        assert(d.take(k - start + 1).drop_last() =~= d.take(k - start));
        let ghost next = digits_value(d.take(k - start + 1));
        assert(next == val * 10 + dgt);
        let v10 = match val.checked_mul(10) {
            Some(x) => x,
            None => {
                proof {
                    if forall|i: int| 0 <= i < d.len() ==> #[trigger] is_digit(d[i]) {
                        lemma_digits_prefix(d, k - start + 1);
                    }
                }
                return default;
            },
        };
        val = match v10.checked_add(dgt) {
            Some(x) => x,
            None => {
                proof {
                    if forall|i: int| 0 <= i < d.len() ==> #[trigger] is_digit(d[i]) {
                        lemma_digits_prefix(d, k - start + 1);
                    }
                }
                return default;
            },
        };
        k = k + 1;
    }
    assert(d.take(len - start) =~= d);
    val
}

/// The number lists to compute: those with at least two numbers, in order.
pub open spec fn lists_to_compute(ls: Seq<Seq<char>>) -> Seq<Seq<usize>>
    decreases ls.len(),
{
    if ls.len() == 0 {
        Seq::empty()
    } else {
        let rest = lists_to_compute(ls.drop_last());
        let nums = list_numbers(ls.last());
        if nums.len() >= 2 {
            rest.push(nums)
        } else {
            rest
        }
    }
}

/// What the numbers field asks for: the number lists to compute, and whether the first
/// list is one of them (the one that the samples start from).
pub struct InputPlan {
    pub sets: Vec<Vec<usize>>,
    pub sample_first: bool,
}

/// The numbers of the words `ws`, each read as a number (2 where it is none), those below
/// 2 dropped.
fn numbers_of(ws: &Vec<Vec<char>>) -> (nums: Vec<usize>)
    ensures
        nums@ == numbers_in(ws@.map_values(|w: Vec<char>| w@)),
{
    let ghost wv = ws@.map_values(|w: Vec<char>| w@);
    let mut nums: Vec<usize> = Vec::new();
    let mut j: usize = 0;
    while j < ws.len()
        invariant
            wv == ws@.map_values(|w: Vec<char>| w@),
            0 <= j <= ws@.len(),
            nums@ == numbers_in(wv.take(j as int)),
        decreases ws@.len() - j,
    {
        assert(wv.take(j + 1).drop_last() =~= wv.take(j as int));
        assert(wv.take(j + 1).last() == ws@[j as int]@);
        let n = parse_or_default(&ws[j], 2);
        if n > 1 {
            nums.push(n);
        }
        j = j + 1;
    }
    assert(wv.take(ws@.len() as int) =~= wv);
    nums
}

/// The number lists of the numbers field that have at least two numbers, and whether the
/// first non-empty list is one of them.
pub fn plan_input(numbers_str: &str) -> (res: InputPlan)
    ensures
        res.sets@.len() == lists_to_compute(input_lists(numbers_str@)).len(),
        forall|i: int| 0 <= i < res.sets@.len() ==> #[trigger] res.sets@[i]@ == lists_to_compute(input_lists(numbers_str@))[i],
        res.sample_first == (input_lists(numbers_str@).len() > 0 && list_numbers(input_lists(numbers_str@)[0]).len() >= 2),
{
    let v = chars_of(numbers_str);
    let ps = split_pieces(&v);
    let ghost sp = split_at_seps(v@);
    let mut sets: Vec<Vec<usize>> = Vec::new();
    let mut counter: usize = 0;
    let mut sample_first = false;
    let mut i: usize = 0;
    while i < ps.len()
        invariant
            sp == split_at_seps(v@),
            ps@.len() == sp.len(),
            forall|q: int| 0 <= q < ps@.len() ==> #[trigger] ps@[q]@ == sp[q],
            0 <= i <= ps@.len(),
            counter == nonempty_trimmed(sp.take(i as int)).len(),
            counter <= i,
            sets@.len() == lists_to_compute(nonempty_trimmed(sp.take(i as int))).len(),
            forall|q: int| 0 <= q < sets@.len() ==> #[trigger] sets@[q]@ == lists_to_compute(nonempty_trimmed(sp.take(i as int)))[q],
            sample_first == (counter > 0 && list_numbers(nonempty_trimmed(sp.take(i as int))[0]).len() >= 2),
        decreases ps@.len() - i,
    {
        let ghost pre = nonempty_trimmed(sp.take(i as int));
        assert(sp.take(i + 1).drop_last() =~= sp.take(i as int));
        assert(sp.take(i + 1).last() == ps@[i as int]@);
        let t = trim_chars(&ps[i]);
        if t.len() > 0 {
            counter = counter + 1;
            let ws = words_of(&t);
            assert(ws@.map_values(|w: Vec<char>| w@) =~= words(t@));
            let nums = numbers_of(&ws);
            let ghost cur = nonempty_trimmed(sp.take(i + 1));
            assert(cur == pre.push(t@));
            assert(cur.drop_last() =~= pre);
            let ghost before = lists_to_compute(pre);
            if nums.len() >= 2 {
                sets.push(nums);
                if counter == 1 {
                    sample_first = true;
                }
                assert(lists_to_compute(cur) == before.push(nums@));
            }
            if counter > 1 {
                assert(cur[0] == pre[0]);
            }
        }
        i = i + 1;
    }
    assert(sp.take(ps@.len() as int) =~= sp);
    InputPlan { sets, sample_first }
}

/// The number of samples: the samples field trimmed and read as a number, 1 where it is
/// none.
pub fn sample_count(samples_str: &str) -> (n: usize)
    ensures
        n == parse_or(trim(samples_str@), 1),
{
    let v = chars_of(samples_str);
    let t = trim_chars(&v);
    parse_or_default(&t, 1)
}

proof fn lemma_numbers_above_one(ws: Seq<Seq<char>>)
    ensures
        forall|j: int| 0 <= j < numbers_in(ws).len() ==> #[trigger] numbers_in(ws)[j] >= 2,
    decreases ws.len(),
{
    if ws.len() > 0 {
        let rest = numbers_in(ws.drop_last());
        let n = parse_or(ws.last(), 2);
        lemma_numbers_above_one(ws.drop_last());
        assert(n <= usize::MAX);
        assert forall|j: int| 0 <= j < numbers_in(ws).len() implies #[trigger] numbers_in(ws)[j] >= 2 by {
            if j < rest.len() {
                assert(numbers_in(ws)[j] == rest[j]);
            }
        }
    }
}

/// Every list that the numbers field asks to compute has at least two numbers, each of
/// them at least 2.
pub proof fn lemma_lists_to_compute_valid(ls: Seq<Seq<char>>)
    ensures
        forall|i: int| 0 <= i < lists_to_compute(ls).len() ==> #[trigger] lists_to_compute(ls)[i].len() >= 2,
        forall|i: int, j: int| 0 <= i < lists_to_compute(ls).len() && 0 <= j < lists_to_compute(ls)[i].len()
            ==> #[trigger] lists_to_compute(ls)[i][j] >= 2,
    decreases ls.len(),
{
    if ls.len() > 0 {
        let rest = lists_to_compute(ls.drop_last());
        let nums = list_numbers(ls.last());
        let all = lists_to_compute(ls);
        lemma_lists_to_compute_valid(ls.drop_last());
        lemma_numbers_above_one(words(ls.last()));
        assert forall|i: int| 0 <= i < all.len() implies #[trigger] all[i].len() >= 2 by {
            if i < rest.len() {
                assert(all[i] == rest[i]);
            }
        }
        assert forall|i: int, j: int| 0 <= i < all.len() && 0 <= j < all[i].len() implies #[trigger] all[i][j] >= 2 by {
            if i < rest.len() {
                assert(all[i] == rest[i]);
                assert(rest[i][j] >= 2);
            } else {
                assert(all[i] == nums);
                assert(nums[j] >= 2);
            }
        }
    }
}

/// No character of `s` is white space.
pub open spec fn no_ws(s: Seq<char>) -> bool {
    forall|i: int| 0 <= i < s.len() ==> !is_ws(#[trigger] s[i])
}

proof fn lemma_words_nonempty_end(s: Seq<char>)
    requires
        s.len() > 0,
        !is_ws(s.last()),
    ensures
        words(s).len() > 0,
        words(s).last().len() > 0,
        words(s).last().last() == s.last(),
    decreases s.len(),
{
    let t = s.drop_last();
    if s.len() >= 2 && !is_ws(s[s.len() - 2]) {
        lemma_words_nonempty_end(t);
    }
}

/// Every word is a non-empty run of characters other than white space.
pub proof fn lemma_words_are_runs(s: Seq<char>)
    ensures
        forall|k: int| 0 <= k < words(s).len() ==> #[trigger] words(s)[k].len() > 0 && no_ws(words(s)[k]),
    decreases s.len(),
{
    if s.len() > 0 {
        let t = s.drop_last();
        lemma_words_are_runs(t);
        let rest = words(t);
        let x = s.last();
        if is_ws(x) {
        } else if s.len() >= 2 && !is_ws(s[s.len() - 2]) {
            lemma_words_nonempty_end(t);
            let lw = rest.last().push(x);
            assert(no_ws(lw)) by {
                assert(no_ws(rest[rest.len() - 1]));
                assert forall|i: int| 0 <= i < lw.len() implies !is_ws(#[trigger] lw[i]) by {
                    if i < lw.len() - 1 {
                        assert(lw[i] == rest[rest.len() - 1][i]);
                    }
                }
            }
            assert forall|k: int| 0 <= k < words(s).len() implies #[trigger] words(s)[k].len() > 0 && no_ws(words(s)[k]) by {
                if k < rest.len() - 1 {
                    assert(words(s)[k] == rest[k]);
                } else {
                    assert(words(s)[k] == lw);
                }
            }
        } else {
            let lw = seq![x];
            assert(no_ws(lw));
            assert forall|k: int| 0 <= k < words(s).len() implies #[trigger] words(s)[k].len() > 0 && no_ws(words(s)[k]) by {
                if k < rest.len() {
                    assert(words(s)[k] == rest[k]);
                } else {
                    assert(words(s)[k] == lw);
                }
            }
        }
    }
}

/// A non-empty stretch without white space is one word.
pub proof fn lemma_words_single(s: Seq<char>)
    requires
        s.len() > 0,
        no_ws(s),
    ensures
        words(s) == seq![s],
    decreases s.len(),
{
    let t = s.drop_last();
    if s.len() == 1 {
        assert(words(t) =~= Seq::<Seq<char>>::empty());
        assert(s =~= seq![s.last()]);
    } else {
        assert(no_ws(t)) by {
            assert forall|i: int| 0 <= i < t.len() implies !is_ws(#[trigger] t[i]) by {
                assert(t[i] == s[i]);
            }
        }
        lemma_words_single(t);
        assert(!is_ws(s[s.len() - 2]));
        assert(!is_ws(s.last()));
        assert(t.push(s.last()) =~= s);
        assert(words(s) =~= seq![s]);
    }
}

/// White space separates words: a white-space character between `a` and `b` gives the
/// words of `a` followed by the words of `b`, however many white-space characters stand
/// around it.
pub proof fn lemma_words_split(a: Seq<char>, c: char, b: Seq<char>)
    requires
        is_ws(c),
    ensures
        words(a + seq![c] + b) == words(a) + words(b),
    decreases b.len(),
{
    let s = a + seq![c] + b;
    if b.len() == 0 {
        assert(s.drop_last() =~= a);
        assert(words(b) =~= Seq::<Seq<char>>::empty());
        assert(words(a) + words(b) =~= words(a));
    } else {
        let b1 = b.drop_last();
        let x = b.last();
        lemma_words_split(a, c, b1);
        assert(s.drop_last() =~= a + seq![c] + b1);
        let rest = words(s.drop_last());
        assert(rest == words(a) + words(b1));
        assert(s.last() == x);
        if is_ws(x) {
        } else if b.len() >= 2 && !is_ws(b[b.len() - 2]) {
            assert(s[s.len() - 2] == b[b.len() - 2]);
            assert(b.drop_last().last() == b[b.len() - 2]);
            lemma_words_nonempty_end(b1);
            let wb1 = words(b1);
            assert(rest.last() == wb1.last());
            assert(words(b) == wb1.update(wb1.len() - 1, wb1.last().push(x)));
            assert(words(s) == rest.update(rest.len() - 1, rest.last().push(x)));
            assert(words(s) =~= words(a) + words(b));
        } else {
            if b.len() >= 2 {
                assert(s[s.len() - 2] == b[b.len() - 2]);
            } else {
                assert(s[s.len() - 2] == c);
                assert(b1 =~= Seq::<char>::empty());
            }
            assert(words(b) == words(b1).push(seq![x]));
            assert(words(s) =~= words(a) + words(b));
        }
    }
}

} // verus!
