//! A stable sort over types that say which of two values comes first.

use vstd::multiset::group_multiset_axioms;
use vstd::prelude::*;
use vstd::seq_lib::{
    to_multiset_build, to_multiset_contains, to_multiset_insert, to_multiset_len,
};

verus! {

/// A type whose values have an order. Different values may be tied.
pub trait Ranked: Sized {
    /// Whether `self` comes before `other` or is tied with it.
    spec fn leads(self, other: Self) -> bool;

    proof fn leads_is_total(a: Self, b: Self)
        ensures
            a.leads(b) || b.leads(a),
    ;

    proof fn leads_is_transitive(a: Self, b: Self, c: Self)
        requires
            a.leads(b),
            b.leads(c),
        ensures
            a.leads(c),
    ;

    /// Decides `leads`.
    fn check_leads(&self, other: &Self) -> (r: bool)
        ensures
            r == self.leads(*other),
    ;
}

/// Every element comes before those that follow it, or is tied with them.
pub open spec fn in_order<T: Ranked>(s: Seq<T>) -> bool {
    forall|i: int, j: int| 0 <= i < j < s.len() ==> (#[trigger] s[i]).leads(#[trigger] s[j])
}

/// The elements tied with `key`, in the order in which they stand.
pub open spec fn tied_with<T: Ranked>(s: Seq<T>, key: T) -> Seq<T> {
    s.filter(|x: T| x.leads(key) && key.leads(x))
}

/// `out` holds what `items` holds, in order, and leaves the order of tied
/// elements as it was.
pub open spec fn is_stable_sort<T: Ranked>(items: Seq<T>, out: Seq<T>) -> bool {
    &&& out.to_multiset() == items.to_multiset()
    &&& in_order(out)
    &&& forall|key: T| #[trigger] tied_with(out, key) == tied_with(items, key)
}

/// Where `item` goes in `sorted`: behind all that lead it.
fn upper_bound<T: Ranked>(sorted: &Vec<T>, item: &T) -> (at: usize)
    requires
        in_order(sorted@),
    ensures
        at <= sorted@.len(),
        forall|i: int| 0 <= i < at ==> (#[trigger] sorted@[i]).leads(*item),
        forall|i: int| at <= i < sorted@.len() ==> !(#[trigger] sorted@[i]).leads(*item),
{
    let mut low: usize = 0;
    let mut high: usize = sorted.len();
    while low < high
        invariant
            low <= high <= sorted@.len(),
            in_order(sorted@),
            forall|i: int| 0 <= i < low ==> (#[trigger] sorted@[i]).leads(*item),
            forall|i: int| high <= i < sorted@.len() ==> !(#[trigger] sorted@[i]).leads(*item),
        decreases high - low,
    {
        let mid: usize = low + (high - low) / 2;
        if sorted[mid].check_leads(item) {
            proof {
                assert forall|i: int| 0 <= i < mid + 1 implies (#[trigger] sorted@[i]).leads(
                    *item,
                ) by {
                    if i < mid {
                        T::leads_is_transitive(sorted@[i], sorted@[mid as int], *item);
                    }
                }
            }
            low = mid + 1;
        } else {
            proof {
                assert forall|i: int| mid <= i < sorted@.len() implies !(#[trigger] sorted@[i]).leads(
                    *item,
                ) by {
                    if mid < i && sorted@[i].leads(*item) {
                        T::leads_is_transitive(sorted@[mid as int], sorted@[i], *item);
                    }
                }
            }
            high = mid;
        }
    }
    low
}

proof fn lemma_insert_keeps_order<T: Ranked>(s: Seq<T>, at: int, item: T)
    requires
        in_order(s),
        0 <= at <= s.len(),
        forall|i: int| 0 <= i < at ==> (#[trigger] s[i]).leads(item),
        forall|i: int| at <= i < s.len() ==> !(#[trigger] s[i]).leads(item),
    ensures
        in_order(s.insert(at, item)),
{
    let t = s.insert(at, item);
    assert forall|i: int, j: int| 0 <= i < j < t.len() implies (#[trigger] t[i]).leads(
        #[trigger] t[j],
    ) by {
        let a = if i <= at {
            i
        } else {
            i - 1
        };
        let b = if j <= at {
            j
        } else {
            j - 1
        };
        if i == at {
            assert(t[j] == s[j - 1]);
            T::leads_is_total(item, s[j - 1]);
        } else if j == at {
            assert(t[i] == s[i]);
        } else {
            assert(t[i] == s[a] && t[j] == s[b]);
        }
    }
}

proof fn lemma_insert_keeps_ties<T: Ranked>(s: Seq<T>, at: int, item: T, key: T)
    requires
        0 <= at <= s.len(),
        forall|i: int| at <= i < s.len() ==> !(#[trigger] s[i]).leads(item),
    ensures
        tied_with(s.insert(at, item), key) == tied_with(s.push(item), key),
{
    let tied = |x: T| x.leads(key) && key.leads(x);
    let front = s.take(at);
    let back = s.skip(at);
    assert(s =~= front + back);
    assert(s.insert(at, item) =~= (front + seq![item]) + back);
    assert(s.push(item) =~= (front + back) + seq![item]);
    Seq::filter_distributes_over_add(front + seq![item], back, tied);
    Seq::filter_distributes_over_add(front, seq![item], tied);
    Seq::filter_distributes_over_add(front + back, seq![item], tied);
    Seq::filter_distributes_over_add(front, back, tied);
    let single = seq![item];
    assert(single.filter(tied) =~= if tied(item) {
        seq![item]
    } else {
        Seq::<T>::empty()
    }) by {
        reveal_with_fuel(Seq::filter, 2);
        assert(single.drop_last() =~= Seq::<T>::empty());
    }
    if tied(item) {
        let untied = |x: T| !tied(x);
        assert forall|i: int| 0 <= i < back.len() implies untied(#[trigger] back[i]) by {
            assert(back[i] == s[at + i]);
            if tied(back[i]) {
                T::leads_is_transitive(back[i], key, item);
            }
        }
        back.lemma_all_neg_filter_empty(tied);
        assert(back.filter(tied) =~= Seq::<T>::empty());
        assert(tied_with(s.insert(at, item), key) =~= tied_with(s.push(item), key));
    } else {
        assert(tied_with(s.insert(at, item), key) =~= tied_with(s.push(item), key));
    }
}

/// Sorts `items`, leaving tied elements in their order.
pub fn stable_sort<T: Ranked>(items: Vec<T>) -> (sorted: Vec<T>)
    ensures
        is_stable_sort(items@, sorted@),
{
    let mut sorted: Vec<T> = Vec::new();
    let ghost all = items@;
    let ghost mut taken: int = 0;
    assert(all.take(0) =~= Seq::<T>::empty());
    for item in iter: items
        invariant
            iter.seq() == all,
            taken == iter.index(),
            is_stable_sort(all.take(taken), sorted@),
    {
        let ghost earlier = sorted@;
        let at: usize = upper_bound(&sorted, &item);
        proof {
            let done = all.take(taken);
            assert(all.take(taken + 1) =~= done.push(item));
            lemma_insert_keeps_order(earlier, at as int, item);
            to_multiset_insert(earlier, at as int, item);
            to_multiset_build(done, item);
            assert forall|key: T| #[trigger]
                tied_with(earlier.insert(at as int, item), key) == tied_with(
                done.push(item),
                key,
            ) by {
                let tied = |x: T| x.leads(key) && key.leads(x);
                lemma_insert_keeps_ties(earlier, at as int, item, key);
                assert(tied_with(earlier, key) == tied_with(done, key));
                Seq::lemma_filter_push(earlier, item, tied);
                Seq::lemma_filter_push(done, item, tied);
            }
            taken = taken + 1;
        }
        sorted.insert(at, item);
    }
    assert(all.take(taken) =~= all);
    sorted
}

/// Sorting loses nothing, adds nothing and repeats nothing.
pub proof fn law_sort_keeps_elements<T: Ranked>(items: Seq<T>, out: Seq<T>)
    requires
        is_stable_sort(items, out),
    ensures
        out.len() == items.len(),
        forall|x: T| #[trigger] out.contains(x) <==> items.contains(x),
        items.no_duplicates() ==> out.no_duplicates(),
{
    broadcast use to_multiset_contains;

    to_multiset_len(items);
    to_multiset_len(out);
    assert forall|x: T| #[trigger] out.contains(x) <==> items.contains(x) by {
        assert(out.to_multiset().count(x) == items.to_multiset().count(x));
    }
    if items.no_duplicates() {
        items.lemma_multiset_has_no_duplicates();
        out.lemma_multiset_has_no_duplicates_conv();
    }
}

proof fn lemma_filter_head<T>(s: Seq<T>, keep: spec_fn(T) -> bool)
    requires
        s.len() > 0,
    ensures
        keep(s[0]) ==> s.filter(keep) == seq![s[0]] + s.drop_first().filter(keep),
        !keep(s[0]) ==> s.filter(keep) == s.drop_first().filter(keep),
{
    let head = seq![s[0]];
    assert(s =~= head + s.drop_first());
    Seq::filter_distributes_over_add(head, s.drop_first(), keep);
    assert(head.filter(keep) =~= if keep(s[0]) {
        head
    } else {
        Seq::<T>::empty()
    }) by {
        reveal_with_fuel(Seq::filter, 2);
        assert(head.drop_last() =~= Seq::<T>::empty());
    }
    assert(Seq::<T>::empty() + s.drop_first().filter(keep) =~= s.drop_first().filter(keep));
}

proof fn lemma_heads_agree<T: Ranked>(a: Seq<T>, b: Seq<T>)
    requires
        a.len() > 0,
        b.len() > 0,
        in_order(a),
        in_order(b),
        a.contains(b[0]),
        b.contains(a[0]),
        tied_with(a, a[0]) == tied_with(b, a[0]),
    ensures
        a[0] == b[0],
{
    let tied = |x: T| x.leads(a[0]) && a[0].leads(x);
    T::leads_is_total(a[0], a[0]);
    T::leads_is_total(b[0], b[0]);
    let i = choose|i: int| 0 <= i < a.len() && a[i] == b[0];
    let j = choose|j: int| 0 <= j < b.len() && b[j] == a[0];
    assert(a[0].leads(a[i]) && b[0].leads(b[j]));
    lemma_filter_head(a, tied);
    lemma_filter_head(b, tied);
    assert((seq![a[0]] + a.drop_first().filter(tied))[0] == a[0]);
    assert((seq![b[0]] + b.drop_first().filter(tied))[0] == b[0]);
}

proof fn lemma_order_and_ties_fix_sequence<T: Ranked>(a: Seq<T>, b: Seq<T>)
    requires
        a.to_multiset() == b.to_multiset(),
        in_order(a),
        in_order(b),
        forall|key: T| #[trigger] tied_with(a, key) == tied_with(b, key),
    ensures
        a == b,
    decreases a.len(),
{
    broadcast use {to_multiset_contains, group_multiset_axioms};

    to_multiset_len(a);
    to_multiset_len(b);
    if a.len() > 0 {
        assert(a.contains(a[0]) && b.contains(b[0]));
        assert(b.to_multiset().count(a[0]) > 0);
        assert(a.to_multiset().count(b[0]) > 0);
        lemma_heads_agree(a, b);
        let rest_a = a.drop_first();
        let rest_b = b.drop_first();
        assert forall|key: T| #[trigger] tied_with(rest_a, key) == tied_with(rest_b, key) by {
            let tied = |x: T| x.leads(key) && key.leads(x);
            assert(tied_with(a, key) == tied_with(b, key));
            lemma_filter_head(a, tied);
            lemma_filter_head(b, tied);
            let front = seq![a[0]];
            if tied(a[0]) {
                assert(rest_a.filter(tied) =~= (front + rest_a.filter(tied)).skip(1));
                assert(rest_b.filter(tied) =~= (front + rest_b.filter(tied)).skip(1));
            }
        }
        assert(rest_a.to_multiset() =~= rest_b.to_multiset()) by {
            assert(a =~= rest_a.insert(0, a[0]));
            assert(b =~= rest_b.insert(0, b[0]));
            to_multiset_insert(rest_a, 0, a[0]);
            to_multiset_insert(rest_b, 0, b[0]);
            let whole_a = rest_a.to_multiset().insert(a[0]);
            let whole_b = rest_b.to_multiset().insert(b[0]);
            assert(whole_a == whole_b);
            assert(whole_a.remove(a[0]) =~= rest_a.to_multiset());
            assert(whole_b.remove(b[0]) =~= rest_b.to_multiset());
        }
        assert(in_order(rest_a) && in_order(rest_b));
        lemma_order_and_ties_fix_sequence(rest_a, rest_b);
        assert(a =~= seq![a[0]] + rest_a);
        assert(b =~= seq![b[0]] + rest_b);
    } else {
        assert(a =~= b);
    }
}

/// There is one way to sort stably.
pub proof fn law_stable_sort_is_unique<T: Ranked>(items: Seq<T>, a: Seq<T>, b: Seq<T>)
    requires
        is_stable_sort(items, a),
        is_stable_sort(items, b),
    ensures
        a == b,
{
    assert forall|key: T| #[trigger] tied_with(a, key) == tied_with(b, key) by {
        assert(tied_with(b, key) == tied_with(items, key));
    }
    lemma_order_and_ties_fix_sequence(a, b);
}

} // verus!
