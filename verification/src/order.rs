//! The items of a set of numbers in ascending order, which is the order in
//! which a `BTreeMap` with such keys is walked.

use std::collections::BTreeMap;
use vstd::prelude::*;

verus! {

broadcast use vstd::laws_cmp::group_laws_cmp;

/// Whether `s` lists its items in strictly ascending order.
pub open spec fn ascending(s: Seq<usize>) -> bool {
    forall|i: int, j: int| 0 <= i < j < s.len() ==> s[i] < s[j]
}

/// The items of a finite set in ascending order.
pub open spec fn sorted(set: Set<usize>) -> Seq<usize> {
    choose|s: Seq<usize>| ascending(s) && s.to_set() == set
}

/// Two ascending sequences with the same items are the same sequence.
pub proof fn lemma_ascending_unique(a: Seq<usize>, b: Seq<usize>)
    requires
        ascending(a),
        ascending(b),
        a.to_set() == b.to_set(),
    ensures
        a == b,
    decreases a.len(),
{
    if a.len() == 0 {
        if b.len() > 0 {
            assert(b.to_set().contains(b[0]));
        }
    } else if b.len() == 0 {
        assert(a.to_set().contains(a[0]));
    } else {
        assert(a.to_set().contains(a.last()));
        assert(b.to_set().contains(b.last()));
        assert(a.contains(b.last()) && b.contains(a.last()));
        assert(a.last() <= b.last()) by {
            let i = choose|i: int| 0 <= i < b.len() && b[i] == a.last();
            assert(b[i] <= b[b.len() - 1]);
        }
        assert(b.last() <= a.last()) by {
            let i = choose|i: int| 0 <= i < a.len() && a[i] == b.last();
            assert(a[i] <= a[a.len() - 1]);
        }
        let a0 = a.drop_last();
        let b0 = b.drop_last();
        assert forall|k: usize| a0.to_set().contains(k) <==> b0.to_set().contains(k) by {
            lemma_drop_last_contains(a, k);
            lemma_drop_last_contains(b, k);
            assert(a.to_set().contains(k) == a.contains(k));
            assert(b.to_set().contains(k) == b.contains(k));
            assert(a0.to_set().contains(k) == a0.contains(k));
            assert(b0.to_set().contains(k) == b0.contains(k));
        }
        assert(a0.to_set() =~= b0.to_set());
        lemma_ascending_unique(a0, b0);
        assert(a =~= a0.push(a.last()));
        assert(b =~= b0.push(b.last()));
    }
}

proof fn lemma_drop_last_contains(s: Seq<usize>, k: usize)
    requires
        ascending(s),
        s.len() > 0,
    ensures
        s.drop_last().contains(k) <==> s.contains(k) && k != s.last(),
{
    if s.contains(k) && k != s.last() {
        let i = choose|i: int| 0 <= i < s.len() && s[i] == k;
        assert(s.drop_last()[i] == k);
    }
    if s.drop_last().contains(k) {
        let i = choose|i: int| 0 <= i < s.drop_last().len() && s.drop_last()[i] == k;
        assert(s[i] == k);
    }
}

/// An ascending sequence is the ascending list of its own items.
pub proof fn lemma_sorted_is(s: Seq<usize>)
    requires
        ascending(s),
    ensures
        sorted(s.to_set()) == s,
{
    let t = sorted(s.to_set());
    assert(ascending(t) && t.to_set() == s.to_set());
    lemma_ascending_unique(s, t);
}

proof fn lemma_greatest(set: Set<usize>) -> (m: usize)
    requires
        set.finite(),
        !set.is_empty(),
    ensures
        set.contains(m),
        forall|k: usize| set.contains(k) ==> k <= m,
    decreases set.len(),
{
    let a = set.choose();
    let rest = set.remove(a);
    if rest.is_empty() {
        assert forall|k: usize| set.contains(k) implies k <= a by {
            if k != a {
                assert(rest.contains(k));
            }
        }
        a
    } else {
        let b = lemma_greatest(rest);
        let m = if a < b { b } else { a };
        assert forall|k: usize| set.contains(k) implies k <= m by {
            if k != a {
                assert(rest.contains(k));
            }
        }
        m
    }
}

proof fn lemma_sorted_exists(set: Set<usize>) -> (s: Seq<usize>)
    requires
        set.finite(),
    ensures
        ascending(s),
        s.to_set() == set,
    decreases set.len(),
{
    if set.is_empty() {
        let s = Seq::<usize>::empty();
        assert(s.to_set() =~= set);
        s
    } else {
        let m = lemma_greatest(set);
        let head = lemma_sorted_exists(set.remove(m));
        let s = head.push(m);
        assert forall|i: int, j: int| 0 <= i < j < s.len() implies s[i] < s[j] by {
            if j == head.len() {
                assert(head.to_set().contains(head[i]));
            }
        }
        assert forall|k: usize| s.to_set().contains(k) <==> set.contains(k) by {
            if set.contains(k) {
                if k == m {
                    assert(s[head.len() as int] == k);
                } else {
                    assert(head.to_set().contains(k));
                    let i = choose|i: int| 0 <= i < head.len() && head[i] == k;
                    assert(s[i] == k);
                }
            }
            if s.contains(k) {
                let i = choose|i: int| 0 <= i < s.len() && s[i] == k;
                if i < head.len() {
                    assert(head[i] == k);
                    assert(head.to_set().contains(k));
                }
            }
        }
        assert(s.to_set() =~= set);
        s
    }
}

/// Every finite set has an ascending list of its items.
pub proof fn lemma_sorted(set: Set<usize>)
    requires
        set.finite(),
    ensures
        ascending(sorted(set)),
        sorted(set).to_set() == set,
        forall|k: usize| #[trigger] sorted(set).contains(k) <==> set.contains(k),
{
    let s = lemma_sorted_exists(set);
    assert(ascending(s) && s.to_set() == set);
    assert forall|k: usize| #[trigger] sorted(set).contains(k) <==> set.contains(k) by {
        assert(sorted(set).to_set().contains(k) <==> set.contains(k));
    }
}

proof fn lemma_increasing_refs(s: Seq<&usize>)
    requires
        vstd::std_specs::btree::increasing_seq(s),
    ensures
        ascending(s.unref()),
{
    assert(vstd::laws_cmp::obeys_cmp::<&usize>());
    assert forall|i: int, j: int| 0 <= i < j < s.len() implies s.unref()[i] < s.unref()[j] by {
        assert(vstd::std_specs::cmp::OrdSpec::cmp_spec(&s[i], &s[j]) is Less);
    }
}

/// The keys of a map in ascending order.
pub fn sorted_keys<V>(map: &BTreeMap<usize, V>) -> (keys: Vec<usize>)
    ensures
        keys@ == sorted(map@.dom()),
        ascending(keys@),
        keys@.to_set() == map@.dom(),
        forall|k: usize| #[trigger] keys@.contains(k) <==> map@.contains_key(k),
        forall|i: int| 0 <= i < keys.len() ==> map@.contains_key(#[trigger] keys@[i]),
{
    let ghost refs = vstd::std_specs::iter::IteratorSpec::remaining(
        &vstd::std_specs::btree::spec_keys_iter(map),
    );
    let mut keys: Vec<usize> = Vec::new();
    for key in it: map.keys()
        invariant
            it.seq() == refs,
            keys@ == refs.unref().take(it.index() as int),
    {
        keys.push(*key);
    }
    proof {
        lemma_increasing_refs(refs);
        assert(keys@ == refs.unref());
        lemma_sorted_is(keys@);
        assert forall|k: usize| #[trigger] keys@.contains(k) <==> map@.contains_key(k) by {
            assert(keys@.to_set().contains(k) <==> map@.dom().contains(k));
        }
        assert forall|i: int| 0 <= i < keys.len() implies map@.contains_key(
            #[trigger] keys@[i],
        ) by {
            assert(keys@.contains(keys@[i]));
        }
    }
    keys
}

} // verus!
