//! The orders that lists of branches and history records are sorted by, and
//! a stable sort.

use vstd::prelude::*;
use vstd::set_lib::{lemma_int_range, lemma_subset_equality, set_int_range};

use crate::text::{
    chars_eq, lemma_lex_asymmetric, lemma_lex_irreflexive, lemma_lex_total,
    lemma_lex_transitive, lex_less, lex_lt,
};

verus! {

/// What an item is sorted by: first `group` ascending, then `recency`
/// descending (a remembered item before one that is not remembered), then
/// `first` and `second` in the order of `str`.
pub struct SortKey {
    pub group: u8,
    pub recency: Option<usize>,
    pub first: Vec<char>,
    pub second: Vec<char>,
}

/// Whether recency `a` sorts before recency `b`: the higher rank first, and a
/// rank before no rank, as `b.cmp(&a)` orders them.
pub open spec fn recency_before(a: Option<usize>, b: Option<usize>) -> bool {
    match (a, b) {
        (Some(x), Some(y)) => x > y,
        (Some(_), None) => true,
        _ => false,
    }
}

/// Whether key `a` sorts strictly before key `b`.
pub open spec fn key_lt(a: SortKey, b: SortKey) -> bool {
    if a.group != b.group {
        a.group < b.group
    } else if a.recency != b.recency {
        recency_before(a.recency, b.recency)
    } else if a.first@ != b.first@ {
        lex_lt(a.first@, b.first@)
    } else {
        lex_lt(a.second@, b.second@)
    }
}

/// Whether two keys sort alike.
pub open spec fn key_eq(a: SortKey, b: SortKey) -> bool {
    a.group == b.group && a.recency == b.recency && a.first@ == b.first@ && a.second@ == b.second@
}

pub proof fn lemma_key_irreflexive(a: SortKey)
    ensures
        !key_lt(a, a),
{
    lemma_lex_irreflexive(a.second@);
}

pub proof fn lemma_key_transitive(a: SortKey, b: SortKey, c: SortKey)
    requires
        key_lt(a, b),
        key_lt(b, c),
    ensures
        key_lt(a, c),
{
    if a.group == b.group && b.group == c.group && a.recency == b.recency && b.recency
        == c.recency {
        if a.first@ == b.first@ && b.first@ == c.first@ {
            lemma_lex_transitive(a.second@, b.second@, c.second@);
        } else if a.first@ != b.first@ && b.first@ != c.first@ {
            lemma_lex_transitive(a.first@, b.first@, c.first@);
            if a.first@ == c.first@ {
                lemma_lex_irreflexive(a.first@);
            }
        }
    }
}

pub proof fn lemma_key_total(a: SortKey, b: SortKey)
    ensures
        key_lt(a, b) || key_lt(b, a) || key_eq(a, b),
{
    lemma_lex_total(a.first@, b.first@);
    lemma_lex_total(a.second@, b.second@);
}

pub proof fn lemma_key_asymmetric(a: SortKey, b: SortKey)
    ensures
        !(key_lt(a, b) && key_lt(b, a)),
{
    if key_lt(a, b) && key_lt(b, a) {
        lemma_key_transitive(a, b, a);
        lemma_key_irreflexive(a);
    }
}

pub proof fn lemma_key_eq_not_lt(a: SortKey, b: SortKey, c: SortKey)
    requires
        key_eq(a, b),
    ensures
        key_lt(a, c) == key_lt(b, c),
        key_lt(c, a) == key_lt(c, b),
{
}

/// Whether key `a` sorts strictly before key `b`.
pub fn key_less(a: &SortKey, b: &SortKey) -> (less: bool)
    ensures
        less == key_lt(*a, *b),
{
    if a.group != b.group {
        return a.group < b.group;
    }
    match (a.recency, b.recency) {
        (Some(x), Some(y)) => {
            if x != y {
                return x > y;
            }
        },
        (Some(_), None) => {
            return true;
        },
        (None, Some(_)) => {
            return false;
        },
        (None, None) => {},
    }
    if !chars_eq(&a.first, &b.first) {
        return lex_less(&a.first, &b.first);
    }
    lex_less(&a.second, &b.second)
}

/// What a key sorts by, as a value of specification.
pub struct KeyView {
    pub group: u8,
    pub recency: Option<int>,
    pub first: Seq<char>,
    pub second: Seq<char>,
}

impl SortKey {
    pub open spec fn key_view(&self) -> KeyView {
        KeyView {
            group: self.group,
            recency: match self.recency {
                Some(r) => Some(r as int),
                None => None,
            },
            first: self.first@,
            second: self.second@,
        }
    }
}

/// Whether view `a` sorts strictly before view `b`, as `key_lt` orders keys.
pub open spec fn view_lt(a: KeyView, b: KeyView) -> bool {
    if a.group != b.group {
        a.group < b.group
    } else if a.recency != b.recency {
        match (a.recency, b.recency) {
            (Some(x), Some(y)) => x > y,
            (Some(_), None) => true,
            _ => false,
        }
    } else if a.first != b.first {
        lex_lt(a.first, b.first)
    } else {
        lex_lt(a.second, b.second)
    }
}

/// Whether two views sort alike.
pub open spec fn view_eq(a: KeyView, b: KeyView) -> bool {
    a.group == b.group && a.recency == b.recency && a.first == b.first && a.second == b.second
}

/// Whether `sorted` holds the items of `items` ordered by `key`, where items
/// whose keys sort alike keep their order.
pub open spec fn sorted_by_key<T>(sorted: Seq<T>, items: Seq<T>, key: spec_fn(T) -> KeyView) -> bool {
    exists|p: Seq<int>| sorted_by_key_with(sorted, items, key, p)
}

/// `sorted` is `items` stably sorted by `key`, where `sorted[i]` is `items[p[i]]`.
pub open spec fn sorted_by_key_with<T>(
    sorted: Seq<T>,
    items: Seq<T>,
    key: spec_fn(T) -> KeyView,
    p: Seq<int>,
) -> bool {
    &&& sorted.len() == items.len()
    &&& is_permutation(p, items.len() as int)
    &&& forall|i: int| 0 <= i < sorted.len() ==> #[trigger] sorted[i] == items[p[i]]
    &&& forall|i: int, j: int|
        0 <= i < j < sorted.len() ==> !view_lt(key(#[trigger] sorted[j]), key(#[trigger] sorted[i]))
    &&& forall|i: int, j: int|
        0 <= i < j < sorted.len() && view_eq(key(#[trigger] sorted[i]), key(#[trigger] sorted[j]))
            ==> p[i] < p[j]
}

/// The items of a stable sort of keyed items, whose keys are `key` of the
/// items, are the items stably sorted by `key`.
pub proof fn lemma_sorted_by_key<T>(
    sorted: Seq<(SortKey, T)>,
    items: Seq<(SortKey, T)>,
    key: spec_fn(T) -> KeyView,
)
    requires
        is_stable_sort(sorted, items),
        forall|i: int| 0 <= i < items.len() ==> (#[trigger] items[i]).0.key_view() == key(items[i].1),
    ensures
        sorted_by_key(
            sorted.map_values(|item: (SortKey, T)| item.1),
            items.map_values(|item: (SortKey, T)| item.1),
            key,
        ),
{
    let p = choose|p: Seq<int>| is_stable_sort_by(sorted, items, p);
    let s = sorted.map_values(|item: (SortKey, T)| item.1);
    let t = items.map_values(|item: (SortKey, T)| item.1);
    assert forall|i: int| 0 <= i < s.len() implies #[trigger] s[i] == t[p[i]] && sorted[i].0.key_view()
        == key(s[i]) by {
        assert(sorted[i] == items[p[i]]);
    }
    assert forall|i: int, j: int| 0 <= i < j < s.len() implies !view_lt(
        key(#[trigger] s[j]),
        key(#[trigger] s[i]),
    ) by {
        assert(!key_lt(sorted[j].0, sorted[i].0));
        assert(sorted[i].0.key_view() == key(s[i]));
        assert(sorted[j].0.key_view() == key(s[j]));
    }
    assert forall|i: int, j: int|
        0 <= i < j < s.len() && view_eq(key(#[trigger] s[i]), key(#[trigger] s[j])) implies p[i]
        < p[j] by {
        assert(sorted[i].0.key_view() == key(s[i]));
        assert(sorted[j].0.key_view() == key(s[j]));
        assert(key_eq(sorted[i].0, sorted[j].0));
    }
    assert(sorted_by_key_with(s, t, key, p));
}

/// Whether `p` lists each of `0..n` once.
pub open spec fn is_permutation(p: Seq<int>, n: int) -> bool {
    &&& p.len() == n
    &&& forall|i: int| 0 <= i < n ==> 0 <= #[trigger] p[i] < n
    &&& forall|i: int, j: int| 0 <= i < j < n ==> p[i] != p[j]
}

/// A permutation of `0..n` lists every index of `0..n`.
pub proof fn lemma_permutation_onto(p: Seq<int>, n: int, j: int)
    requires
        is_permutation(p, n),
        0 <= j < n,
    ensures
        exists|i: int| 0 <= i < n && p[i] == j,
{
    broadcast use vstd::seq_lib::group_seq_properties;

    assert(p.no_duplicates()) by {
        assert forall|a: int, b: int| 0 <= a < p.len() && 0 <= b < p.len() && a != b implies p[a]
            != p[b] by {
            if a < b {
            } else {
            }
        }
    }
    p.unique_seq_to_set();
    let values = p.to_set();
    lemma_int_range(0, n);
    assert(values.subset_of(set_int_range(0, n))) by {
        assert forall|x: int| values.contains(x) implies set_int_range(0, n).contains(x) by {
            assert(p.contains(x));
        }
    }
    lemma_subset_equality(values, set_int_range(0, n));
    assert(set_int_range(0, n).contains(j));
    assert(p.contains(j));
}

/// Whether `sorted` holds the items of `items`, ordered by key, where items
/// whose keys sort alike keep their order: the result of a stable sort.
pub open spec fn is_stable_sort<T>(sorted: Seq<(SortKey, T)>, items: Seq<(SortKey, T)>) -> bool {
    exists|p: Seq<int>| is_stable_sort_by(sorted, items, p)
}

/// `sorted` is `items` stably sorted, where `sorted[i]` is `items[p[i]]`.
pub open spec fn is_stable_sort_by<T>(
    sorted: Seq<(SortKey, T)>,
    items: Seq<(SortKey, T)>,
    p: Seq<int>,
) -> bool {
    &&& sorted.len() == items.len()
    &&& is_permutation(p, items.len() as int)
    &&& forall|i: int| 0 <= i < sorted.len() ==> #[trigger] sorted[i] == items[p[i]]
    &&& forall|i: int, j: int|
        0 <= i < j < sorted.len() ==> !key_lt(#[trigger] sorted[j].0, #[trigger] sorted[i].0)
    &&& forall|i: int, j: int|
        0 <= i < j < sorted.len() && key_eq(#[trigger] sorted[i].0, #[trigger] sorted[j].0)
            ==> p[i] < p[j]
}

/// Sorts `items` by key, keeping the order of items whose keys sort alike.
pub fn stable_sort<T>(items: Vec<(SortKey, T)>) -> (sorted: Vec<(SortKey, T)>)
    ensures
        is_stable_sort(sorted@, items@),
{
    let ghost input = items@;
    assert(input.len() == items.len());
    let mut rest = items;
    let mut sorted: Vec<(SortKey, T)> = Vec::new();
    let ghost mut p: Seq<int> = Seq::empty();
    let mut k: usize = 0;
    while rest.len() > 0
        invariant
            k + rest.len() == input.len(),
            input.len() <= usize::MAX,
            rest@ == input.skip(k as int),
            sorted.len() == k,
            p.len() == k,
            forall|i: int| 0 <= i < k ==> 0 <= #[trigger] p[i] < k,
            forall|i: int, j: int| 0 <= i < j < k ==> p[i] != p[j],
            forall|i: int| 0 <= i < k ==> #[trigger] sorted@[i] == input[p[i]],
            forall|i: int, j: int|
                0 <= i < j < k ==> !key_lt(#[trigger] sorted@[j].0, #[trigger] sorted@[i].0),
            forall|i: int, j: int|
                0 <= i < j < k && key_eq(#[trigger] sorted@[i].0, #[trigger] sorted@[j].0) ==> p[i]
                    < p[j],
        decreases rest.len(),
    {
        let item = rest.remove(0);
        proof {
            assert(item == input[k as int]);
            assert(rest@ =~= input.skip(k + 1));
        }
        let mut j: usize = 0;
        while j < sorted.len() && !key_less(&item.0, &sorted[j].0)
            invariant
                j <= sorted.len(),
                forall|m: int| 0 <= m < j ==> !key_lt(item.0, #[trigger] sorted@[m].0),
            decreases sorted.len() - j,
        {
            j = j + 1;
        }
        let ghost old_sorted = sorted@;
        let ghost old_p = p;
        proof {
            assert forall|m: int| j <= m < k implies key_lt(item.0, #[trigger] old_sorted[m].0) by {
                assert(key_lt(item.0, old_sorted[j as int].0));
                if m > j {
                    lemma_key_total(old_sorted[j as int].0, old_sorted[m].0);
                    if key_lt(old_sorted[j as int].0, old_sorted[m].0) {
                        lemma_key_transitive(item.0, old_sorted[j as int].0, old_sorted[m].0);
                    }
                }
            }
            p = old_p.insert(j as int, k as int);
        }
        sorted.insert(j, item);
        proof {
            assert forall|i: int| 0 <= i < k + 1 implies 0 <= #[trigger] p[i] < k + 1 by {
                if i < j {
                    assert(p[i] == old_p[i]);
                } else if i > j {
                    assert(p[i] == old_p[i - 1]);
                }
            }
            assert forall|a: int, b: int| 0 <= a < b < k + 1 implies p[a] != p[b] by {
                if a < j && b < j {
                } else if a < j && b == j {
                    assert(old_p[a] < k);
                } else if a < j {
                    assert(p[b] == old_p[b - 1]);
                } else if a == j {
                    assert(p[b] == old_p[b - 1]);
                    assert(old_p[b - 1] < k);
                } else {
                    assert(p[a] == old_p[a - 1]);
                    assert(p[b] == old_p[b - 1]);
                }
            }
            assert forall|i: int| 0 <= i < k + 1 implies #[trigger] sorted@[i] == input[p[i]] by {
                if i < j {
                    assert(sorted@[i] == old_sorted[i]);
                    assert(p[i] == old_p[i]);
                } else if i > j {
                    assert(sorted@[i] == old_sorted[i - 1]);
                    assert(p[i] == old_p[i - 1]);
                }
            }
            assert forall|a: int, b: int| 0 <= a < b < k + 1 implies !key_lt(
                #[trigger] sorted@[b].0,
                #[trigger] sorted@[a].0,
            ) by {
                if a < j && b < j {
                    assert(sorted@[a] == old_sorted[a] && sorted@[b] == old_sorted[b]);
                } else if a < j && b == j {
                    assert(sorted@[a] == old_sorted[a]);
                } else if a < j {
                    assert(sorted@[a] == old_sorted[a] && sorted@[b] == old_sorted[b - 1]);
                    lemma_key_total(old_sorted[a].0, item.0);
                    if key_lt(old_sorted[a].0, item.0) {
                        lemma_key_transitive(old_sorted[a].0, item.0, old_sorted[b - 1].0);
                        lemma_key_asymmetric(old_sorted[a].0, old_sorted[b - 1].0);
                    } else {
                        lemma_key_eq_not_lt(old_sorted[a].0, item.0, old_sorted[b - 1].0);
                        lemma_key_asymmetric(item.0, old_sorted[b - 1].0);
                    }
                } else if a == j {
                    assert(sorted@[b] == old_sorted[b - 1]);
                    lemma_key_asymmetric(item.0, old_sorted[b - 1].0);
                } else {
                    assert(sorted@[a] == old_sorted[a - 1] && sorted@[b] == old_sorted[b - 1]);
                }
            }
            assert forall|a: int, b: int|
                0 <= a < b < k + 1 && key_eq(
                    #[trigger] sorted@[a].0,
                    #[trigger] sorted@[b].0,
                ) implies p[a] < p[b] by {
                if a < j && b < j {
                    assert(sorted@[a] == old_sorted[a] && sorted@[b] == old_sorted[b]);
                } else if a < j && b == j {
                    assert(old_p[a] < k);
                } else if a < j {
                    assert(sorted@[a] == old_sorted[a] && sorted@[b] == old_sorted[b - 1]);
                    lemma_key_total(old_sorted[a].0, item.0);
                    lemma_key_eq_not_lt(old_sorted[a].0, old_sorted[b - 1].0, item.0);
                    lemma_key_asymmetric(item.0, old_sorted[b - 1].0);
                    lemma_key_irreflexive(item.0);
                } else if a == j {
                    assert(sorted@[b] == old_sorted[b - 1]);
                    lemma_key_irreflexive(item.0);
                    lemma_key_eq_not_lt(item.0, old_sorted[b - 1].0, item.0);
                } else {
                    assert(sorted@[a] == old_sorted[a - 1] && sorted@[b] == old_sorted[b - 1]);
                }
            }
        }
        k = k + 1;
    }
    proof {
        assert(is_stable_sort_by(sorted@, input, p));
    }
    sorted
}


/// The items of `items`, stably sorted by their keys, which are `key` of the
/// items.
pub fn sort_by_keys<T>(items: Vec<(SortKey, T)>, Ghost(key): Ghost<spec_fn(T) -> KeyView>) -> (sorted: Vec<T>)
    requires
        forall|i: int| 0 <= i < items.len() ==> (#[trigger] items@[i]).0.key_view() == key(items@[i].1),
    ensures
        sorted_by_key(sorted@, items@.map_values(|item: (SortKey, T)| item.1), key),
{
    let ghost input = items@;
    let mut rest = stable_sort(items);
    proof {
        lemma_sorted_by_key(rest@, input, key);
    }
    let ghost pairs = rest@;
    let ghost projected = pairs.map_values(|item: (SortKey, T)| item.1);
    let mut sorted: Vec<T> = Vec::new();
    let mut k: usize = 0;
    let total = rest.len();
    while rest.len() > 0
        invariant
            k + rest.len() == total,
            total == pairs.len(),
            rest@ == pairs.skip(k as int),
            sorted@ == projected.take(k as int),
            projected == pairs.map_values(|item: (SortKey, T)| item.1),
        decreases rest.len(),
    {
        let (_, item) = rest.remove(0);
        proof {
            assert(item == projected[k as int]);
            assert(projected.take(k + 1) =~= projected.take(k as int).push(item));
            assert(rest@ =~= pairs.skip(k + 1));
        }
        sorted.push(item);
        k = k + 1;
    }
    assert(sorted@ =~= projected);
    sorted
}

} // verus!
