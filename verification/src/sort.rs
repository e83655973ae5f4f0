//! The tree engine: the keys of every object within a depth bound are put in
//! the sequence that a [`SortOrder`] asks for.
//!
//! Depth counts nested objects only; an array hands the depth of its parent
//! on to its elements and keeps them in place. Below the bound nothing is
//! reordered.
use crate::json::{entries_view, lemma_array_view, lemma_object_view, Json, JsonView};
use crate::key_order::{
    arrangement, as_positions, is_permutation, key_texts, permutation_for,
};
use crate::random::RandomSource;
use crate::text::chars_of;
use crate::theorems::lemma_rearranged_well_formed;
use crate::SortOrder;
use vstd::prelude::*;

verus! {

/// How many further levels of objects are reordered, seen from an object at
/// `depth` under the bound `max_depth`; `None` where there is no bound.
pub open spec fn levels_left(depth: nat, max_depth: Option<nat>) -> Option<nat> {
    match max_depth {
        None => None,
        Some(bound) => Some(
            if depth < bound {
                (bound - depth) as nat
            } else {
                0
            },
        ),
    }
}

/// The levels that are left one object further down.
pub open spec fn below(levels: Option<nat>) -> Option<nat> {
    match levels {
        None => None,
        Some(n) => Some(
            if n > 0 {
                (n - 1) as nat
            } else {
                0
            },
        ),
    }
}

/// The keys of a list of entries, in the order of the entries.
pub open spec fn keys_of(entries: Seq<(Seq<char>, JsonView)>) -> Seq<Seq<char>> {
    Seq::new(entries.len(), |i: int| entries[i].0)
}

/// The tree `v` with the keys of every object within `levels` levels put in
/// `order`.
///
/// Scalars stay as they are. An array keeps its elements in place, each
/// sorted with the same `levels`. An object with no level left stays as it
/// is, with all that is below it. Any other object lists its entries by the
/// [`arrangement`] of its keys, each value sorted with one level less.
pub open spec fn sorted(v: JsonView, order: SortOrder, levels: Option<nat>) -> JsonView
    decreases v,
{
    match v {
        JsonView::Array(items) => JsonView::Array(
            Seq::new(
                items.len(),
                |i: int|
                    if 0 <= i < items.len() {
                        sorted(items[i], order, levels)
                    } else {
                        JsonView::Null
                    },
            ),
        ),
        JsonView::Object(entries) => if levels == Some(0nat) {
            v
        } else {
            let p = arrangement(order, keys_of(entries));
            JsonView::Object(
                Seq::new(
                    entries.len(),
                    |i: int|
                        if 0 <= i < entries.len() && 0 <= p[i] < entries.len() {
                            (entries[p[i]].0, sorted(entries[p[i]].1, order, below(levels)))
                        } else {
                            (Seq::empty(), JsonView::Null)
                        },
                ),
            )
        },
        _ => v,
    }
}

/// Whether `b` is `a` with the entries of objects within `levels` levels
/// permuted, and with nothing else changed: every scalar, every array's
/// length and element order, every key with its value, and all that lies
/// below the bound are as in `a`.
pub open spec fn rearranged(a: JsonView, b: JsonView, levels: Option<nat>) -> bool
    decreases a,
{
    match a {
        JsonView::Array(items) => {
            &&& b is Array
            &&& b->Array_0.len() == items.len()
            &&& forall|i: int|
                0 <= i < items.len() ==> rearranged(items[i], #[trigger] b->Array_0[i], levels)
        },
        JsonView::Object(entries) => if levels == Some(0nat) {
            b == a
        } else {
            &&& b is Object
            &&& b->Object_0.len() == entries.len()
            &&& exists|p: Seq<int>|
                {
                    &&& #[trigger] is_permutation(p, entries.len())
                    &&& forall|i: int|
                        0 <= i < entries.len() ==> {
                            &&& 0 <= p[i] < entries.len()
                            &&& (#[trigger] b->Object_0[i]).0 == entries[p[i]].0
                            &&& rearranged(entries[p[i]].1, b->Object_0[i].1, below(levels))
                        }
                }
        },
        _ => b == a,
    }
}

/// The number of levels that an optional count stands for.
pub open spec fn as_levels(levels: Option<u32>) -> Option<nat> {
    match levels {
        None => None,
        Some(n) => Some(n as nat),
    }
}

/// The keys of `entries` as character vectors.
fn collect_keys(entries: &Vec<(String, Json)>) -> (keys: Vec<Vec<char>>)
    ensures
        key_texts(&keys) == keys_of(entries_view(entries)),
{
    let mut keys: Vec<Vec<char>> = Vec::new();
    let mut i: usize = 0;
    while i < entries.len()
        invariant
            i <= entries.len(),
            keys.len() == i,
            forall|j: int| 0 <= j < i ==> keys[j]@ == entries[j].0@,
        decreases entries.len() - i,
    {
        keys.push(chars_of(entries[i].0.as_str()));
        i += 1;
    }
    assert(key_texts(&keys) =~= keys_of(entries_view(entries)));
    keys
}

/// Sorts `value` with `levels` levels of objects left to reorder.
fn sort_levels(value: &Json, order: SortOrder, levels: Option<u32>, source: &mut RandomSource) -> (out:
    Json)
    ensures
        order != SortOrder::Random ==> out@ == sorted(value@, order, as_levels(levels)),
        rearranged(value@, out@, as_levels(levels)),
    decreases value,
{
    match value {
        Json::Null => Json::Null,
        Json::Bool(b) => Json::Bool(*b),
        Json::Number(text) => Json::Number(text.clone()),
        Json::String(text) => Json::String(text.clone()),
        Json::Array(items) => {
            let mut out: Vec<Json> = Vec::new();
            let mut i: usize = 0;
            while i < items.len()
                invariant
                    decreases_to!(value => *items),
                    i <= items.len(),
                    out.len() == i,
                    forall|j: int|
                        0 <= j < i ==> {
                            &&& order != SortOrder::Random ==> out[j]@ == sorted(
                                items[j]@,
                                order,
                                as_levels(levels),
                            )
                            &&& rearranged(items[j]@, out[j]@, as_levels(levels))
                        },
                decreases items.len() - i,
            {
                out.push(sort_levels(&items[i], order, levels, source));
                i += 1;
            }
            let result = Json::Array(out);
            proof {
                lemma_array_view(items);
                lemma_array_view(&out);
                if order != SortOrder::Random {
                    assert(result@->Array_0 =~= sorted(
                        value@,
                        order,
                        as_levels(levels),
                    )->Array_0);
                }
            }
            result
        },
        Json::Object(entries) => {
            let next = match levels {
                None => None,
                Some(n) => {
                    if n == 0 {
                        return value.copy();
                    }
                    Some(n - 1)
                },
            };
            let keys = collect_keys(entries);
            let p = permutation_for(order, &keys, source);
            assert(keys.len() == entries.len()) by {
                assert(key_texts(&keys).len() == keys_of(entries_view(entries)).len());
            }
            assert forall|j: int| 0 <= j < p.len() implies #[trigger] p[j] < entries.len() by {
                assert(as_positions(p@)[j] < entries.len());
            }
            let mut out: Vec<(String, Json)> = Vec::new();
            let mut i: usize = 0;
            while i < p.len()
                invariant
                    decreases_to!(value => *entries),
                    i <= p.len(),
                    p.len() == entries.len(),
                    forall|j: int| 0 <= j < p.len() ==> #[trigger] p[j] < entries.len(),
                    out.len() == i,
                    forall|j: int|
                        0 <= j < i ==> {
                            &&& (#[trigger] out[j]).0@ == entries[p[j] as int].0@
                            &&& order != SortOrder::Random ==> out[j].1@ == sorted(
                                entries[p[j] as int].1@,
                                order,
                                as_levels(next),
                            )
                            &&& rearranged(entries[p[j] as int].1@, out[j].1@, as_levels(next))
                        },
                decreases p.len() - i,
            {
                let at = p[i];
                out.push(
                    (entries[at].0.clone(), sort_levels(&entries[at].1, order, next, source)),
                );
                i += 1;
            }
            let result = Json::Object(out);
            proof {
                lemma_object_view(entries);
                lemma_object_view(&out);
                assert(as_levels(next) == below(as_levels(levels)));
                if order != SortOrder::Random {
                    assert(result@->Object_0 =~= sorted(
                        value@,
                        order,
                        as_levels(levels),
                    )->Object_0);
                }
                assert(is_permutation(as_positions(p@), value@->Object_0.len()));
            }
            result
        },
    }
}

/// The levels that are left at `depth` under the bound `max_depth`.
fn remaining_levels(depth: u32, max_depth: Option<u32>) -> (levels: Option<u32>)
    ensures
        as_levels(levels) == levels_left(depth as nat, as_levels(max_depth)),
{
    match max_depth {
        None => None,
        Some(bound) => Some(
            if depth < bound {
                bound - depth
            } else {
                0
            },
        ),
    }
}

/// Sorts the keys of `value`, which stands at `depth`, down to `max_depth`,
/// drawing the shuffles of the `Random` order from `source`.
///
/// Under every other order the result is [`sorted`]. Under every order it is
/// [`rearranged`]: only the sequence of entries within the bound differs from
/// `value`. Where no object of `value` holds a key twice, none of the result
/// does.
pub fn sort_with(
    value: &Json,
    order: &SortOrder,
    depth: u32,
    max_depth: Option<u32>,
    source: &mut RandomSource,
) -> (out: Json)
    ensures
        *order != SortOrder::Random ==> out@ == sorted(
            value@,
            *order,
            levels_left(depth as nat, as_levels(max_depth)),
        ),
        rearranged(value@, out@, levels_left(depth as nat, as_levels(max_depth))),
        value@.well_formed() ==> out@.well_formed(),
{
    let out = sort_levels(value, *order, remaining_levels(depth, max_depth), source);
    proof {
        if value@.well_formed() {
            lemma_rearranged_well_formed(
                value@,
                out@,
                levels_left(depth as nat, as_levels(max_depth)),
            );
        }
    }
    out
}

/// Sorts the keys of `value`, which stands at `depth`, down to `max_depth`.
///
/// The `Random` order draws from a source that the operating system seeds,
/// as [`RandomSource::new`] makes it.
pub fn sort(value: &Json, order: &SortOrder, depth: u32, max_depth: Option<u32>) -> (out: Json)
    ensures
        *order != SortOrder::Random ==> out@ == sorted(
            value@,
            *order,
            levels_left(depth as nat, as_levels(max_depth)),
        ),
        rearranged(value@, out@, levels_left(depth as nat, as_levels(max_depth))),
        value@.well_formed() ==> out@.well_formed(),
{
    let mut source = RandomSource::new();
    sort_with(value, order, depth, max_depth, &mut source)
}

} // verus!
