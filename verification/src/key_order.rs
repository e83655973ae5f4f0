//! The order of sibling keys under each [`SortOrder`].
//!
//! A key is compared as the sequence of its characters. The positions of one
//! object's keys are arranged by key, and positions whose keys do not decide
//! keep their relative order, so every arrangement is unique.
use crate::random::RandomSource;
use crate::SortOrder;
use vstd::prelude::*;
use vstd::relations::{sorted_by, total_ordering};

verus! {

/// Whether `a` sorts before `b` from position `from` on, the characters
/// before `from` being of no account: at the first position where the two
/// differ `a` has the smaller code point, or `a` ends there and `b` goes on.
pub open spec fn lex_less_from(a: Seq<char>, b: Seq<char>, from: int) -> bool
    decreases a.len() - from,
{
    if from < 0 || from >= b.len() {
        false
    } else if from >= a.len() {
        true
    } else if a[from] != b[from] {
        a[from] < b[from]
    } else {
        lex_less_from(a, b, from + 1)
    }
}

/// Lexicographic order by code point: strictly less.
pub open spec fn lex_less(a: Seq<char>, b: Seq<char>) -> bool {
    lex_less_from(a, b, 0)
}

/// Whether key `a` must stand before key `b` under `order`.
///
/// The length orders fall back to ascending lexicographic order between keys
/// of one length. `Random` ranks no key before another.
pub open spec fn key_precedes(order: SortOrder, a: Seq<char>, b: Seq<char>) -> bool {
    match order {
        SortOrder::AlphabeticalAsc => lex_less(a, b),
        SortOrder::AlphabeticalDesc => lex_less(b, a),
        SortOrder::KeyLengthAsc => a.len() < b.len() || (a.len() == b.len() && lex_less(a, b)),
        SortOrder::KeyLengthDesc => a.len() > b.len() || (a.len() == b.len() && lex_less(a, b)),
        SortOrder::Random => false,
    }
}

/// Two keys agree from `from` on when neither sorts before the other there.
pub proof fn lemma_lex_undecided_agree(a: Seq<char>, b: Seq<char>, from: int)
    requires
        0 <= from,
        !lex_less_from(a, b, from),
        !lex_less_from(b, a, from),
    ensures
        a.len() == b.len() || (from >= a.len() && from >= b.len()),
        forall|k: int| from <= k < a.len() ==> a[k] == b[k],
    decreases a.len() - from,
{
    if from < a.len() && from < b.len() {
        lemma_lex_undecided_agree(a, b, from + 1);
    }
}

/// A key never sorts before itself, and of two keys at most one sorts before
/// the other.
pub proof fn lemma_lex_asymmetric(a: Seq<char>, b: Seq<char>, from: int)
    requires
        0 <= from,
    ensures
        !(lex_less_from(a, b, from) && lex_less_from(b, a, from)),
    decreases a.len() - from,
{
    if from < a.len() && from < b.len() && a[from] == b[from] {
        lemma_lex_asymmetric(a, b, from + 1);
    }
}

/// Lexicographic order is transitive.
pub proof fn lemma_lex_transitive(a: Seq<char>, b: Seq<char>, c: Seq<char>, from: int)
    requires
        0 <= from,
        lex_less_from(a, b, from),
        lex_less_from(b, c, from),
    ensures
        lex_less_from(a, c, from),
    decreases a.len() - from,
{
    if from < a.len() && from < b.len() && from < c.len() && a[from] == b[from] && b[from]
        == c[from] {
        lemma_lex_transitive(a, b, c, from + 1);
    }
}

/// Of two different keys one sorts before the other.
pub proof fn lemma_lex_total(a: Seq<char>, b: Seq<char>)
    ensures
        lex_less(a, b) || lex_less(b, a) || a == b,
{
    if !lex_less(a, b) && !lex_less(b, a) {
        lemma_lex_undecided_agree(a, b, 0);
        assert(a =~= b);
    }
}

/// No key stands before itself, and two keys never stand before each other.
pub proof fn lemma_precedes_asymmetric(order: SortOrder, a: Seq<char>, b: Seq<char>)
    ensures
        !(key_precedes(order, a, b) && key_precedes(order, b, a)),
{
    lemma_lex_asymmetric(a, b, 0);
    lemma_lex_asymmetric(b, a, 0);
}

/// Standing before is transitive.
pub proof fn lemma_precedes_transitive(
    order: SortOrder,
    a: Seq<char>,
    b: Seq<char>,
    c: Seq<char>,
)
    requires
        key_precedes(order, a, b),
        key_precedes(order, b, c),
    ensures
        key_precedes(order, a, c),
{
    if lex_less(a, b) && lex_less(b, c) {
        lemma_lex_transitive(a, b, c, 0);
    }
    if lex_less(c, b) && lex_less(b, a) {
        lemma_lex_transitive(c, b, a, 0);
    }
}

/// Under every order but `Random`, of two different keys one stands before
/// the other.
pub proof fn lemma_precedes_total(order: SortOrder, a: Seq<char>, b: Seq<char>)
    requires
        order != SortOrder::Random,
    ensures
        key_precedes(order, a, b) || key_precedes(order, b, a) || a == b,
{
    lemma_lex_total(a, b);
}

/// Whether position `i` stands at or before position `j` among `keys`: by
/// key, and by position where the keys do not decide.
pub open spec fn at_or_before(order: SortOrder, keys: Seq<Seq<char>>, i: int, j: int) -> bool {
    i == j || key_precedes(order, keys[i], keys[j]) || (!key_precedes(order, keys[j], keys[i])
        && i < j)
}

/// [`at_or_before`] as a relation on positions.
pub open spec fn position_order(order: SortOrder, keys: Seq<Seq<char>>) -> spec_fn(int, int) -> bool {
    |i: int, j: int| at_or_before(order, keys, i, j)
}

/// The positions `from`, `from + 1`, .., `to - 1`.
pub open spec fn positions(from: int, to: int) -> Seq<int> {
    Seq::new((to - from) as nat, |k: int| from + k)
}

/// Whether `p` is a permutation of the positions `0..n`: `n` positions below
/// `n`, none of them twice.
pub open spec fn is_permutation(p: Seq<int>, n: nat) -> bool {
    &&& p.len() == n
    &&& forall|i: int| 0 <= i < n ==> 0 <= #[trigger] p[i] < n
    &&& p.no_duplicates()
}

/// Whether `p` lists the positions of `keys` in the sequence that `order`
/// asks for.
pub open spec fn is_arrangement(order: SortOrder, keys: Seq<Seq<char>>, p: Seq<int>) -> bool {
    &&& is_permutation(p, keys.len())
    &&& sorted_by(p, position_order(order, keys))
}

/// The arrangement of `keys` under `order`: position `i` of the result names
/// the key that comes `i`-th.
pub open spec fn arrangement(order: SortOrder, keys: Seq<Seq<char>>) -> Seq<int> {
    choose|p: Seq<int>| is_arrangement(order, keys, p)
}

/// The order of positions is total: any two positions are comparable, and
/// only a position itself is both at-or-before and at-or-after it.
pub proof fn lemma_position_order_total(order: SortOrder, keys: Seq<Seq<char>>)
    ensures
        total_ordering(position_order(order, keys)),
{
    let leq = position_order(order, keys);
    assert forall|i: int, j: int| #[trigger] leq(i, j) && #[trigger] leq(j, i) implies i == j by {
        lemma_precedes_asymmetric(order, keys[i], keys[j]);
    }
    assert forall|i: int, j: int, k: int| #[trigger] leq(i, j) && #[trigger] leq(j, k) implies leq(
        i,
        k,
    ) by {
        let (a, b, c) = (keys[i], keys[j], keys[k]);
        lemma_precedes_asymmetric(order, a, b);
        lemma_precedes_asymmetric(order, b, c);
        lemma_precedes_asymmetric(order, a, c);
        if order != SortOrder::Random {
            lemma_precedes_total(order, a, b);
            lemma_precedes_total(order, b, c);
        }
        if key_precedes(order, a, b) && key_precedes(order, b, c) {
            lemma_precedes_transitive(order, a, b, c);
        }
    }
}

/// A permutation of `0..n` misses none of the positions below `n`.
pub proof fn lemma_permutation_onto(p: Seq<int>, n: nat)
    requires
        is_permutation(p, n),
    ensures
        forall|v: int| 0 <= v < n ==> p.contains(v),
{
    let below = vstd::set_lib::set_int_range(0, n as int);
    vstd::set_lib::lemma_int_range(0, n as int);
    p.unique_seq_to_set();
    assert forall|v: int| p.to_set().contains(v) implies below.contains(v) by {
        let i = choose|i: int| 0 <= i < p.len() && p[i] == v;
        assert(0 <= p[i] < n);
    }
    vstd::set_lib::lemma_subset_equality(p.to_set(), below);
    assert forall|v: int| 0 <= v < n implies p.contains(v) by {
        assert(below.contains(v));
    }
}

/// A permutation of `0..n` holds what `0, 1, .., n - 1` holds.
pub proof fn lemma_permutation_multiset(p: Seq<int>, n: nat)
    requires
        is_permutation(p, n),
    ensures
        p.to_multiset() == positions(0, n as int).to_multiset(),
{
    broadcast use vstd::seq_lib::group_to_multiset_ensures;

    let all = positions(0, n as int);
    lemma_permutation_onto(p, n);
    p.lemma_multiset_has_no_duplicates();
    all.lemma_multiset_has_no_duplicates();
    assert forall|v: int| p.to_multiset().count(v) == all.to_multiset().count(v) by {
        if 0 <= v < n {
            assert(all[v] == v);
            assert(all.contains(v) && p.contains(v));
        } else {
            assert(!all.contains(v) && !p.contains(v));
        }
    }
    assert(p.to_multiset() =~= all.to_multiset());
}

/// What holds what `0, 1, .., n - 1` holds is a permutation of `0..n`.
pub proof fn lemma_multiset_permutation(p: Seq<int>, n: nat)
    requires
        p.to_multiset() == positions(0, n as int).to_multiset(),
    ensures
        is_permutation(p, n),
{
    broadcast use vstd::seq_lib::group_to_multiset_ensures;

    let all = positions(0, n as int);
    assert(p.len() == n) by {
        vstd::seq_lib::to_multiset_len(p);
        vstd::seq_lib::to_multiset_len(all);
    }
    all.lemma_multiset_has_no_duplicates();
    p.lemma_multiset_has_no_duplicates_conv();
    assert forall|i: int| 0 <= i < n implies 0 <= #[trigger] p[i] < n by {
        assert(p.contains(p[i]));
        assert(all.to_multiset().count(p[i]) > 0);
        assert(all.contains(p[i]));
    }
}

/// Every list of keys has an arrangement.
pub proof fn lemma_arrangement_exists(order: SortOrder, keys: Seq<Seq<char>>)
    ensures
        is_arrangement(order, keys, arrangement(order, keys)),
{
    let leq = position_order(order, keys);
    let all = positions(0, keys.len() as int);
    lemma_position_order_total(order, keys);
    all.lemma_sort_by_ensures(leq);
    lemma_multiset_permutation(all.sort_by(leq), keys.len());
    assert(is_arrangement(order, keys, all.sort_by(leq)));
}

/// A list of keys has one arrangement only.
pub proof fn lemma_arrangement_unique(order: SortOrder, keys: Seq<Seq<char>>, p: Seq<int>)
    requires
        is_arrangement(order, keys, p),
    ensures
        p == arrangement(order, keys),
{
    let q = arrangement(order, keys);
    lemma_position_order_total(order, keys);
    lemma_arrangement_exists(order, keys);
    lemma_permutation_multiset(p, keys.len());
    lemma_permutation_multiset(q, keys.len());
    vstd::seq_lib::lemma_sorted_unique(p, q, position_order(order, keys));
}

/// The keys that a vector of character vectors stands for.
pub open spec fn key_texts(keys: &Vec<Vec<char>>) -> Seq<Seq<char>> {
    Seq::new(keys.len() as nat, |i: int| keys[i]@)
}

/// The positions that a vector of indices stands for.
pub open spec fn as_positions(indices: Seq<usize>) -> Seq<int> {
    Seq::new(indices.len(), |i: int| indices[i] as int)
}

/// Lexicographic comparison of two keys by code point.
pub fn lex_precedes(a: &Vec<char>, b: &Vec<char>) -> (less: bool)
    ensures
        less == lex_less(a@, b@),
{
    let mut i: usize = 0;
    while i < a.len() && i < b.len()
        invariant
            i <= a.len(),
            i <= b.len(),
            lex_less(a@, b@) == lex_less_from(a@, b@, i as int),
        decreases a.len() - i,
    {
        if a[i] != b[i] {
            return a[i] < b[i];
        }
        i += 1;
    }
    i < b.len()
}

/// Whether key `a` must stand before key `b` under `order`.
pub fn precedes(order: SortOrder, a: &Vec<char>, b: &Vec<char>) -> (first: bool)
    ensures
        first == key_precedes(order, a@, b@),
{
    match order {
        SortOrder::AlphabeticalAsc => lex_precedes(a, b),
        SortOrder::AlphabeticalDesc => lex_precedes(b, a),
        SortOrder::KeyLengthAsc => a.len() < b.len() || (a.len() == b.len() && lex_precedes(a, b)),
        SortOrder::KeyLengthDesc => a.len() > b.len() || (a.len() == b.len() && lex_precedes(a, b)),
        SortOrder::Random => false,
    }
}

/// Whether position `i` stands at or before position `j` among `keys`.
fn stands_at_or_before(order: SortOrder, keys: &Vec<Vec<char>>, i: usize, j: usize) -> (first: bool)
    requires
        i < keys.len(),
        j < keys.len(),
    ensures
        first == at_or_before(order, key_texts(keys), i as int, j as int),
{
    i == j || precedes(order, &keys[i], &keys[j]) || (!precedes(order, &keys[j], &keys[i]) && i
        < j)
}

/// Whether `run` lists different positions of `from..to` in the order `leq`.
spec fn is_run(run: Seq<int>, leq: spec_fn(int, int) -> bool, from: int, to: int) -> bool {
    &&& sorted_by(run, leq)
    &&& run.no_duplicates()
    &&& forall|k: int| 0 <= k < run.len() ==> from <= #[trigger] run[k] < to
}

/// Whether every position of `run` stands before `x` and is not `x`.
spec fn all_before(run: Seq<int>, leq: spec_fn(int, int) -> bool, x: int) -> bool {
    forall|k: int| 0 <= k < run.len() ==> #[trigger] leq(run[k], x) && run[k] != x
}

/// A run goes on with a position that all of it stands before, and the
/// longer run stands before whatever the new position stands before.
proof fn lemma_run_goes_on(
    run: Seq<int>,
    leq: spec_fn(int, int) -> bool,
    from: int,
    to: int,
    x: int,
)
    requires
        total_ordering(leq),
        is_run(run, leq, from, to),
        all_before(run, leq, x),
        from <= x < to,
    ensures
        is_run(run.push(x), leq, from, to),
        forall|y: int| leq(x, y) && x != y ==> all_before(run.push(x), leq, y),
{
    let longer = run.push(x);
    assert forall|a: int, b: int| 0 <= a < b < longer.len() implies #[trigger] leq(
        longer[a],
        longer[b],
    ) by {
        if b < run.len() {
            assert(leq(run[a], run[b]));
        } else {
            assert(leq(run[a], x));
        }
    }
    assert forall|a: int, b: int|
        0 <= a < longer.len() && 0 <= b < longer.len() && a != b implies longer[a] != longer[b] by {
        if a < run.len() && b < run.len() {
            assert(run[a] != run[b]);
        } else if a < run.len() {
            assert(leq(run[a], x));
        } else {
            assert(leq(run[b], x));
        }
    }
    assert forall|y: int| leq(x, y) && x != y implies all_before(longer, leq, y) by {
        assert forall|k: int| 0 <= k < longer.len() implies #[trigger] leq(longer[k], y)
            && longer[k] != y by {
            if k < run.len() {
                assert(leq(run[k], x) && run[k] != x);
                if run[k] == y {
                    assert(leq(y, x) && leq(x, y));
                }
            }
        }
    }
}

/// Merges a run of positions of `lo..mid` and a run of positions of
/// `mid..hi` into one run.
fn merge_runs(
    order: SortOrder,
    keys: &Vec<Vec<char>>,
    left: &Vec<usize>,
    right: &Vec<usize>,
    Ghost(lo): Ghost<int>,
    Ghost(mid): Ghost<int>,
    Ghost(hi): Ghost<int>,
) -> (out: Vec<usize>)
    requires
        0 <= lo <= mid <= hi <= keys.len(),
        is_run(as_positions(left@), position_order(order, key_texts(keys)), lo, mid),
        is_run(as_positions(right@), position_order(order, key_texts(keys)), mid, hi),
    ensures
        is_run(as_positions(out@), position_order(order, key_texts(keys)), lo, hi),
        out.len() == left.len() + right.len(),
{
    let ghost leq = position_order(order, key_texts(keys));
    let ghost (l, r) = (as_positions(left@), as_positions(right@));
    let mut out: Vec<usize> = Vec::new();
    let mut i: usize = 0;
    let mut j: usize = 0;
    proof {
        lemma_position_order_total(order, key_texts(keys));
    }
    while i < left.len() || j < right.len()
        invariant
            i <= left.len(),
            j <= right.len(),
            0 <= lo <= mid <= hi <= keys.len(),
            leq == position_order(order, key_texts(keys)),
            total_ordering(leq),
            l == as_positions(left@),
            r == as_positions(right@),
            is_run(l, leq, lo, mid),
            is_run(r, leq, mid, hi),
            is_run(as_positions(out@), leq, lo, hi),
            out.len() == i + j,
            i < left.len() ==> all_before(as_positions(out@), leq, l[i as int]),
            j < right.len() ==> all_before(as_positions(out@), leq, r[j as int]),
        decreases left.len() - i + right.len() - j,
    {
        let from_left = if i >= left.len() {
            false
        } else if j >= right.len() {
            true
        } else {
            stands_at_or_before(order, keys, left[i], right[j])
        };
        let ghost run = as_positions(out@);
        if from_left {
            let next = left[i];
            out.push(next);
            proof {
                let x = l[i as int];
                assert(as_positions(out@) =~= run.push(x));
                lemma_run_goes_on(run, leq, lo, hi, x);
                if i + 1 < left.len() {
                    assert(leq(x, l[i + 1]) && x != l[i + 1]);
                }
                if j < right.len() {
                    assert(leq(x, r[j as int]) && x != r[j as int]);
                }
            }
            i += 1;
        } else {
            let next = right[j];
            out.push(next);
            proof {
                let x = r[j as int];
                assert(as_positions(out@) =~= run.push(x));
                lemma_run_goes_on(run, leq, lo, hi, x);
                if j + 1 < right.len() {
                    assert(leq(x, r[j + 1]) && x != r[j + 1]);
                }
                if i < left.len() {
                    let y = l[i as int];
                    assert(leq(x, y) || leq(y, x));
                    assert(leq(x, y) && x != y);
                }
            }
            j += 1;
        }
    }
    out
}

/// The positions `lo..hi` of `keys`, in order.
fn arrange_range(order: SortOrder, keys: &Vec<Vec<char>>, lo: usize, hi: usize) -> (out: Vec<usize>)
    requires
        lo <= hi <= keys.len(),
    ensures
        is_run(as_positions(out@), position_order(order, key_texts(keys)), lo as int, hi as int),
        out.len() == hi - lo,
    decreases hi - lo,
{
    let mut out: Vec<usize> = Vec::new();
    if hi - lo == 0 {
        out
    } else if hi - lo == 1 {
        out.push(lo);
        out
    } else {
        let mid = lo + (hi - lo) / 2;
        let left = arrange_range(order, keys, lo, mid);
        let right = arrange_range(order, keys, mid, hi);
        merge_runs(
            order,
            keys,
            &left,
            &right,
            Ghost(lo as int),
            Ghost(mid as int),
            Ghost(hi as int),
        )
    }
}

/// Arranges the positions of `keys` as `order` asks.
///
/// Position `i` of the result names the key that comes `i`-th. Under `Random`
/// no key stands before another, and the result is `0, 1, ..` unchanged.
pub fn arrange(order: SortOrder, keys: &Vec<Vec<char>>) -> (p: Vec<usize>)
    ensures
        as_positions(p@) == arrangement(order, key_texts(keys)),
        is_arrangement(order, key_texts(keys), as_positions(p@)),
{
    let p = arrange_range(order, keys, 0, keys.len());
    proof {
        assert(is_permutation(as_positions(p@), keys.len() as nat));
        lemma_arrangement_unique(order, key_texts(keys), as_positions(p@));
    }
    p
}

/// The permutation to apply to the entries of one object: position `i` of
/// the result names the entry that comes `i`-th.
///
/// Under `Random` it is a shuffle drawn from `source`, of which nothing holds
/// but that it is a permutation; under every other order it is the
/// [`arrangement`] of `keys`.
pub fn permutation_for(order: SortOrder, keys: &Vec<Vec<char>>, source: &mut RandomSource) -> (p:
    Vec<usize>)
    ensures
        is_permutation(as_positions(p@), keys.len() as nat),
        order != SortOrder::Random ==> as_positions(p@) == arrangement(order, key_texts(keys)),
{
    match order {
        SortOrder::Random => source.shuffle(keys.len()),
        _ => arrange(order, keys),
    }
}

} // verus!
