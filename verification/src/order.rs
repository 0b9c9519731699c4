//! Putting rows in order by a key, and taking the first of them.

use vstd::prelude::*;

use crate::selection::{
    capped, count_wanted, is_leading, is_strict_order, lemma_leading_displace,
    lemma_leading_insert, lemma_leading_leave_out, lemma_leading_skip,
};

verus! {

/// A key that rows are put in order by. Two keys may stand level: neither
/// then comes before the other.
pub trait Ranked: Sized {
    /// This key comes before `other`.
    spec fn precedes(&self, other: &Self) -> bool;

    /// Whether this key comes before `other`.
    fn comes_before(&self, other: &Self) -> (first: bool)
        ensures
            first == self.precedes(other),
    ;

    /// No key comes before itself; what comes before a key comes before all
    /// that the key comes before; and a key that comes before another comes
    /// before every third key or has it come before the other.
    proof fn lemma_precedes(a: &Self, b: &Self, c: &Self)
        ensures
            !a.precedes(a),
            a.precedes(b) && b.precedes(c) ==> a.precedes(c),
            a.precedes(c) ==> a.precedes(b) || b.precedes(c),
    ;
}

/// The positions that have a key.
pub open spec fn has_key<K>(keys: Seq<Option<K>>) -> spec_fn(int) -> bool {
    |i: int| keys[i] is Some
}

/// The order of positions by their keys; of two positions with level keys
/// the lower one comes first.
pub open spec fn key_order<K: Ranked>(keys: Seq<Option<K>>) -> spec_fn(int, int) -> bool {
    |i: int, j: int|
        keys[i]->0.precedes(&keys[j]->0) || (!keys[j]->0.precedes(&keys[i]->0) && i < j)
}

/// The positions in a list of indices.
pub open spec fn positions(picked: Seq<usize>) -> Seq<int> {
    Seq::new(picked.len(), |k: int| picked[k] as int)
}

/// The cap in a limit that may be absent.
pub open spec fn cap_of(cap: Option<usize>) -> Option<int> {
    match cap {
        Some(c) => Some(c as int),
        None => None,
    }
}

/// The order by keys is strict and total on the positions.
pub proof fn lemma_key_order_strict<K: Ranked>(keys: Seq<Option<K>>)
    ensures
        is_strict_order(keys.len() as int, key_order(keys)),
{
    let n = keys.len() as int;
    let before = key_order(keys);
    assert forall|i: int| 0 <= i < n implies !#[trigger] before(i, i) by {
        K::lemma_precedes(&keys[i]->0, &keys[i]->0, &keys[i]->0);
    }
    assert forall|i: int, j: int|
        #![trigger before(i, j)]
        0 <= i < n && 0 <= j < n && i != j implies before(i, j) || before(j, i) by {
    }
    assert forall|i: int, j: int, k: int|
        #![trigger before(i, j), before(j, k)]
        0 <= i < n && 0 <= j < n && 0 <= k < n && before(i, j) && before(j, k) implies before(
        i,
        k,
    ) by {
        let a = keys[i]->0;
        let b = keys[j]->0;
        let c = keys[k]->0;
        K::lemma_precedes(&a, &b, &c);
        K::lemma_precedes(&a, &c, &b);
        K::lemma_precedes(&b, &a, &c);
        K::lemma_precedes(&c, &b, &a);
    }
}

/// Whether `key` comes before the key at `position`.
fn beats<K: Ranked>(keys: &Vec<Option<K>>, key: &K, position: usize) -> (first: bool)
    requires
        position < keys@.len(),
        keys@[position as int] is Some,
    ensures
        first == key.precedes(&keys@[position as int]->0),
{
    match &keys[position] {
        Some(other) => key.comes_before(other),
        None => false,
    }
}

/// The positions of the first keyed rows in the order of their keys, rows
/// with level keys in the order they stand in: all keyed rows where `cap` is
/// `None`, and else the first `cap` of them.
///
/// Each row is put at its place among those picked so far, looked for from
/// the end, so rows that come in order already cost one comparison each.
pub fn leading<K: Ranked>(keys: &Vec<Option<K>>, cap: Option<usize>) -> (picked: Vec<usize>)
    ensures
        is_leading(
            keys@.len() as int,
            has_key(keys@),
            key_order(keys@),
            cap_of(cap),
            positions(picked@),
        ),
        picked@.len() == capped(count_wanted(keys@.len() as int, has_key(keys@)), cap_of(cap)),
{
    let n = keys.len();
    let ghost wanted = has_key(keys@);
    let ghost before = key_order(keys@);
    let ghost lim = cap_of(cap);
    proof {
        lemma_key_order_strict(keys@);
    }
    let mut picked: Vec<usize> = Vec::new();
    let mut i: usize = 0;
    while i < n
        invariant
            n == keys@.len(),
            i <= n,
            wanted == has_key(keys@),
            before == key_order(keys@),
            lim == cap_of(cap),
            is_strict_order(n as int, before),
            is_leading(i as int, wanted, before, lim, positions(picked@)),
            picked@.len() == capped(count_wanted(i as int, wanted), lim),
        decreases n - i,
    {
        let ghost held = positions(picked@);
        match &keys[i] {
            None => {
                proof {
                    lemma_leading_skip(i as int, wanted, before, lim, held);
                }
            },
            Some(key) => {
                let m = picked.len();
                let mut at: usize = m;
                assert forall|k: int| 0 <= k < m implies picked@[k] < i && keys@[picked@[k] as int]
                    is Some by {
                    assert(0 <= held[k] < i && wanted(held[k]));
                }
                while at > 0 && beats(keys, key, picked[at - 1])
                    invariant
                        at <= m,
                        m == picked@.len(),
                        i < n,
                        n == keys@.len(),
                        forall|k: int|
                            0 <= k < m ==> #[trigger] picked@[k] < i && keys@[picked@[k] as int]
                                is Some,
                        forall|k: int|
                            at <= k < m ==> key.precedes(&keys@[#[trigger] picked@[k] as int]->0),
                    decreases at,
                {
                    at = at - 1;
                }
                let full = match cap {
                    Some(c) => m >= c,
                    None => false,
                };
                proof {
                    assert(wanted(i as int));
                    assert(keys@[i as int]->0 == *key);
                    assert forall|k: int| at <= k < held.len() implies before(
                        i as int,
                        #[trigger] held[k],
                    ) by {
                        assert(key.precedes(&keys@[picked@[k] as int]->0));
                    }
                    if at > 0 {
                        assert(!key.precedes(&keys@[picked@[at - 1] as int]->0));
                        assert(held[at - 1] == picked@[at - 1]);
                        assert(before(held[at - 1], i as int));
                    }
                }
                if at == m && full {
                    proof {
                        assert forall|k: int| 0 <= k < held.len() implies before(
                            #[trigger] held[k],
                            i as int,
                        ) by {
                            if k < m - 1 {
                                assert(0 <= held[k] < n && 0 <= held[m - 1] < n);
                                assert(before(held[k], held[m - 1]));
                            }
                        }
                        lemma_leading_leave_out(i as int, wanted, before, lim, held);
                    }
                } else {
                    picked.insert(at, i);
                    if full {
                        picked.pop();
                        proof {
                            lemma_leading_displace(
                                n as int,
                                i as int,
                                wanted,
                                before,
                                lim,
                                held,
                                at as int,
                            );
                            assert(positions(picked@) =~= held.insert(at as int, i as int).drop_last());
                        }
                    } else {
                        proof {
                            lemma_leading_insert(
                                n as int,
                                i as int,
                                wanted,
                                before,
                                lim,
                                held,
                                at as int,
                            );
                            assert(positions(picked@) =~= held.insert(at as int, i as int));
                        }
                    }
                }
            },
        }
        i = i + 1;
    }
    picked
}

} // verus!
