//! Picking rows in order: what it means for a list of row positions to hold
//! the first rows that a query wants, and what follows from it.

use vstd::prelude::*;

verus! {

/// `before` orders the positions below `n` strictly and totally.
pub open spec fn is_strict_order(n: int, before: spec_fn(int, int) -> bool) -> bool {
    &&& forall|i: int| 0 <= i < n ==> !#[trigger] before(i, i)
    &&& forall|i: int, j: int|
        #![trigger before(i, j)]
        0 <= i < n && 0 <= j < n && i != j ==> before(i, j) || before(j, i)
    &&& forall|i: int, j: int, k: int|
        #![trigger before(i, j), before(j, k)]
        0 <= i < n && 0 <= j < n && 0 <= k < n && before(i, j) && before(j, k) ==> before(i, k)
}

/// `picked` lists, in the order `before`, the first of the positions below
/// `n` that are `wanted`: all of them where there is no `cap`, and else as
/// many as the cap allows. Every entry is a wanted position, the entries
/// stand in order, and a wanted position is missing only where the list is
/// full and every entry comes before it.
pub open spec fn is_leading(
    n: int,
    wanted: spec_fn(int) -> bool,
    before: spec_fn(int, int) -> bool,
    cap: Option<int>,
    picked: Seq<int>,
) -> bool {
    &&& cap matches Some(c) ==> picked.len() <= c
    &&& forall|k: int| 0 <= k < picked.len() ==> 0 <= #[trigger] picked[k] < n && wanted(picked[k])
    &&& forall|a: int, b: int|
        0 <= a < b < picked.len() ==> before(#[trigger] picked[a], #[trigger] picked[b])
    &&& forall|i: int|
        #![trigger wanted(i)]
        0 <= i < n && wanted(i) && !picked.contains(i) ==> {
            &&& cap == Some(picked.len() as int)
            &&& forall|k: int| 0 <= k < picked.len() ==> before(#[trigger] picked[k], i)
        }
}

/// The order of the positions themselves.
pub open spec fn by_position() -> spec_fn(int, int) -> bool {
    |i: int, j: int| i < j
}

/// The test that wants every position.
pub open spec fn every() -> spec_fn(int) -> bool {
    |i: int| true
}

/// The number of positions below `n` that are `wanted`.
pub open spec fn count_wanted(n: int, wanted: spec_fn(int) -> bool) -> int
    decreases n,
{
    if n <= 0 {
        0
    } else {
        count_wanted(n - 1, wanted) + if wanted(n - 1) {
            1int
        } else {
            0int
        }
    }
}

/// The length of a list that takes from `count` rows what `cap` allows.
pub open spec fn capped(count: int, cap: Option<int>) -> int {
    match cap {
        Some(c) => if count <= c {
            count
        } else {
            c
        },
        None => count,
    }
}

/// The positions below `n`, all of them, in the order `before`.
pub open spec fn arrangement(n: int, before: spec_fn(int, int) -> bool) -> Seq<int> {
    choose|picked: Seq<int>| is_leading(n, every(), before, None, picked)
}

/// The rows of `given` in the order `before` of their positions.
pub open spec fn in_order<T>(given: Seq<T>, before: spec_fn(int, int) -> bool) -> Seq<T> {
    arrangement(given.len() as int, before).map_values(|i: int| given[i])
}

/// The count of wanted positions lies between zero and `n`.
pub proof fn lemma_count_bounds(n: int, wanted: spec_fn(int) -> bool)
    requires
        0 <= n,
    ensures
        0 <= count_wanted(n, wanted) <= n,
    decreases n,
{
    if n > 0 {
        lemma_count_bounds(n - 1, wanted);
    }
}

/// Where every position below `n` is wanted, `n` positions are.
pub proof fn lemma_count_all(n: int, wanted: spec_fn(int) -> bool)
    requires
        0 <= n,
        forall|i: int| 0 <= i < n ==> #[trigger] wanted(i),
    ensures
        count_wanted(n, wanted) == n,
    decreases n,
{
    if n > 0 {
        lemma_count_all(n - 1, wanted);
    }
}

/// Two wanted-tests that agree below `n` count the same.
pub proof fn lemma_count_congruent(
    n: int,
    first: spec_fn(int) -> bool,
    second: spec_fn(int) -> bool,
)
    requires
        forall|i: int| 0 <= i < n ==> #[trigger] first(i) == second(i),
    ensures
        count_wanted(n, first) == count_wanted(n, second),
    decreases n,
{
    if n > 0 {
        lemma_count_congruent(n - 1, first, second);
    }
}

/// The positions stand in a strict order.
pub proof fn lemma_by_position_strict(n: int)
    ensures
        is_strict_order(n, by_position()),
{
    let before = by_position();
    assert forall|i: int, j: int|
        #![trigger before(i, j)]
        0 <= i < n && 0 <= j < n && i != j implies before(i, j) || before(j, i) by {
    }
}

/// An order that agrees below `n` with a strict order is a strict order.
pub proof fn lemma_strict_congruent(
    n: int,
    before: spec_fn(int, int) -> bool,
    before2: spec_fn(int, int) -> bool,
)
    requires
        is_strict_order(n, before),
        forall|i: int, j: int|
            0 <= i < n && 0 <= j < n ==> before(i, j) == #[trigger] before2(i, j),
    ensures
        is_strict_order(n, before2),
{
    assert forall|i: int| 0 <= i < n implies !#[trigger] before2(i, i) by {
        assert(!before(i, i));
    }
    assert forall|i: int, j: int|
        #![trigger before2(i, j)]
        0 <= i < n && 0 <= j < n && i != j implies before2(i, j) || before2(j, i) by {
        assert(before(i, j) || before(j, i));
        assert(before(j, i) == before2(j, i));
    }
    assert forall|i: int, j: int, k: int|
        #![trigger before2(i, j), before2(j, k)]
        0 <= i < n && 0 <= j < n && 0 <= k < n && before2(i, j) && before2(j, k) implies before2(
        i,
        k,
    ) by {
        assert(before(i, j) && before(j, k));
        assert(before(i, k) == before2(i, k));
    }
}

/// Where two leading lists agree up to `t`, what the first holds at `t` does
/// not come before what the second holds there.
proof fn lemma_cannot_come_first(
    n: int,
    wanted: spec_fn(int) -> bool,
    before: spec_fn(int, int) -> bool,
    cap_p: Option<int>,
    p: Seq<int>,
    cap_q: Option<int>,
    q: Seq<int>,
    t: int,
)
    requires
        is_strict_order(n, before),
        is_leading(n, wanted, before, cap_p, p),
        is_leading(n, wanted, before, cap_q, q),
        0 <= t < p.len(),
        t < q.len(),
        forall|s: int| 0 <= s < t ==> p[s] == q[s],
    ensures
        !before(p[t], q[t]),
{
    let x = p[t];
    let y = q[t];
    assert(0 <= x < n && wanted(x));
    assert(0 <= y < n);
    assert(!before(x, x));
    if before(x, y) {
        if q.contains(x) {
            let u = choose|u: int| 0 <= u < q.len() && q[u] == x;
            if u < t {
                assert(p[u] == q[u]);
                assert(before(p[u], p[t]));
            } else if u == t {
            } else {
                assert(before(q[t], q[u]));
                assert(before(x, y) && before(y, x));
            }
        } else {
            assert(before(q[t], x));
            assert(before(x, y) && before(y, x));
        }
    }
}

/// Two leading lists for the same wanted positions and the same order hold
/// the same position at every place that both have, whatever their caps.
pub proof fn lemma_leading_agree(
    n: int,
    wanted: spec_fn(int) -> bool,
    before: spec_fn(int, int) -> bool,
    cap_p: Option<int>,
    p: Seq<int>,
    cap_q: Option<int>,
    q: Seq<int>,
    t: int,
)
    requires
        is_strict_order(n, before),
        is_leading(n, wanted, before, cap_p, p),
        is_leading(n, wanted, before, cap_q, q),
        0 <= t < p.len(),
        t < q.len(),
    ensures
        p[t] == q[t],
    decreases t,
{
    assert forall|s: int| 0 <= s < t implies p[s] == q[s] by {
        lemma_leading_agree(n, wanted, before, cap_p, p, cap_q, q, s);
    }
    let x = p[t];
    let y = q[t];
    if x != y {
        assert(0 <= x < n);
        assert(0 <= y < n);
        assert(before(x, y) || before(y, x));
        if before(x, y) {
            lemma_cannot_come_first(n, wanted, before, cap_p, p, cap_q, q, t);
        } else {
            lemma_cannot_come_first(n, wanted, before, cap_q, q, cap_p, p, t);
        }
    }
}

/// Of two leading lists for the same wanted positions and the same order,
/// the shorter is the beginning of the longer.
pub proof fn lemma_leading_prefix(
    n: int,
    wanted: spec_fn(int) -> bool,
    before: spec_fn(int, int) -> bool,
    cap_p: Option<int>,
    p: Seq<int>,
    cap_q: Option<int>,
    q: Seq<int>,
)
    requires
        is_strict_order(n, before),
        is_leading(n, wanted, before, cap_p, p),
        is_leading(n, wanted, before, cap_q, q),
        p.len() <= q.len(),
    ensures
        p == q.take(p.len() as int),
{
    assert forall|t: int| 0 <= t < p.len() implies p[t] == q.take(p.len() as int)[t] by {
        lemma_leading_agree(n, wanted, before, cap_p, p, cap_q, q, t);
    }
    assert(p =~= q.take(p.len() as int));
}

/// A leading list is no shorter than another one with a cap that is no
/// smaller than its own.
pub proof fn lemma_leading_length(
    n: int,
    wanted: spec_fn(int) -> bool,
    before: spec_fn(int, int) -> bool,
    cap_p: Option<int>,
    p: Seq<int>,
    cap_q: Option<int>,
    q: Seq<int>,
)
    requires
        is_strict_order(n, before),
        is_leading(n, wanted, before, cap_p, p),
        is_leading(n, wanted, before, cap_q, q),
        cap_p is None || (cap_q is Some && cap_q->0 <= cap_p->0),
    ensures
        q.len() <= p.len(),
{
    if p.len() < q.len() {
        let z = q[p.len() as int];
        assert(0 <= z < n && wanted(z));
        if p.contains(z) {
            let u = choose|u: int| 0 <= u < p.len() && p[u] == z;
            lemma_leading_agree(n, wanted, before, cap_p, p, cap_q, q, u);
            assert(before(q[u], q[p.len() as int]));
            assert(!before(z, z));
        } else {
            assert(cap_p == Some(p.len() as int));
        }
    }
}

/// There is one leading list only for given wanted positions, order and cap.
pub proof fn lemma_leading_unique(
    n: int,
    wanted: spec_fn(int) -> bool,
    before: spec_fn(int, int) -> bool,
    cap: Option<int>,
    p: Seq<int>,
    q: Seq<int>,
)
    requires
        is_strict_order(n, before),
        is_leading(n, wanted, before, cap, p),
        is_leading(n, wanted, before, cap, q),
    ensures
        p == q,
{
    lemma_leading_length(n, wanted, before, cap, p, cap, q);
    lemma_leading_length(n, wanted, before, cap, q, cap, p);
    lemma_leading_prefix(n, wanted, before, cap, p, cap, q);
    assert(q.take(q.len() as int) =~= q);
}

/// Whether a list is leading depends on the wanted-test only at the
/// positions below `n`, and on the order only between wanted positions.
pub proof fn lemma_leading_congruent(
    n: int,
    wanted: spec_fn(int) -> bool,
    before: spec_fn(int, int) -> bool,
    wanted2: spec_fn(int) -> bool,
    before2: spec_fn(int, int) -> bool,
    cap: Option<int>,
    picked: Seq<int>,
)
    requires
        is_leading(n, wanted, before, cap, picked),
        forall|i: int| 0 <= i < n ==> wanted(i) == #[trigger] wanted2(i),
        forall|i: int, j: int|
            0 <= i < n && 0 <= j < n && wanted(i) && wanted(j) ==> before(i, j)
                == #[trigger] before2(i, j),
    ensures
        is_leading(n, wanted2, before2, cap, picked),
{
    assert forall|k: int| 0 <= k < picked.len() implies 0 <= #[trigger] picked[k] < n && wanted2(
        picked[k],
    ) by {
        assert(wanted(picked[k]));
    }
    assert forall|a: int, b: int| 0 <= a < b < picked.len() implies before2(
        #[trigger] picked[a],
        #[trigger] picked[b],
    ) by {
        assert(wanted(picked[a]) && wanted(picked[b]));
        assert(before(picked[a], picked[b]));
    }
    assert forall|i: int|
        #![trigger wanted2(i)]
        0 <= i < n && wanted2(i) && !picked.contains(i) implies {
        &&& cap == Some(picked.len() as int)
        &&& forall|k: int| 0 <= k < picked.len() ==> before2(#[trigger] picked[k], i)
    } by {
        assert(wanted(i));
        assert forall|k: int| 0 <= k < picked.len() implies before2(#[trigger] picked[k], i) by {
            assert(wanted(picked[k]));
            assert(before(picked[k], i));
        }
    }
}

/// A list that holds all wanted positions in order is the leading list
/// under every cap that it fits.
pub proof fn lemma_leading_fits(
    n: int,
    wanted: spec_fn(int) -> bool,
    before: spec_fn(int, int) -> bool,
    picked: Seq<int>,
    cap: int,
)
    requires
        is_leading(n, wanted, before, None, picked),
        picked.len() <= cap,
    ensures
        is_leading(n, wanted, before, Some(cap), picked),
{
}

/// Dropping entries by two tests that agree on the entries leaves the same.
pub proof fn lemma_filter_congruent(
    p: Seq<int>,
    keep: spec_fn(int) -> bool,
    keep2: spec_fn(int) -> bool,
)
    requires
        forall|k: int| 0 <= k < p.len() ==> keep(#[trigger] p[k]) == keep2(p[k]),
    ensures
        p.filter(keep) == p.filter(keep2),
    decreases p.len(),
{
    reveal(Seq::filter);
    if p.len() > 0 {
        let rest = p.drop_last();
        assert forall|k: int| 0 <= k < rest.len() implies keep(#[trigger] rest[k]) == keep2(
            rest[k],
        ) by {
            assert(rest[k] == p[k]);
        }
        lemma_filter_congruent(rest, keep, keep2);
        assert(keep(p[p.len() - 1]) == keep2(p[p.len() - 1]));
    }
}

/// What is left of an ordered list after dropping entries is still ordered.
pub proof fn lemma_filter_keeps_order(
    p: Seq<int>,
    keep: spec_fn(int) -> bool,
    before: spec_fn(int, int) -> bool,
)
    requires
        forall|a: int, b: int| 0 <= a < b < p.len() ==> before(#[trigger] p[a], #[trigger] p[b]),
    ensures
        forall|a: int, b: int|
            0 <= a < b < p.filter(keep).len() ==> before(
                #[trigger] p.filter(keep)[a],
                #[trigger] p.filter(keep)[b],
            ),
        forall|k: int|
            0 <= k < p.filter(keep).len() ==> p.contains(#[trigger] p.filter(keep)[k]) && keep(
                p.filter(keep)[k],
            ),
        forall|u: int| 0 <= u < p.len() && keep(p[u]) ==> p.filter(keep).contains(#[trigger] p[u]),
    decreases p.len(),
{
    reveal(Seq::filter);
    let f = p.filter(keep);
    if p.len() > 0 {
        let rest = p.drop_last();
        let g = rest.filter(keep);
        assert forall|a: int, b: int| 0 <= a < b < rest.len() implies before(
            #[trigger] rest[a],
            #[trigger] rest[b],
        ) by {
            assert(rest[a] == p[a] && rest[b] == p[b]);
        }
        lemma_filter_keeps_order(rest, keep, before);
        assert forall|k: int| 0 <= k < f.len() implies p.contains(#[trigger] f[k]) && keep(
            f[k],
        ) by {
            if k < g.len() {
                assert(f[k] == g[k]);
                assert(rest.contains(g[k]));
                let u = choose|u: int| 0 <= u < rest.len() && rest[u] == g[k];
                assert(p[u] == g[k]);
            } else {
                assert(f[k] == p[p.len() - 1]);
            }
        }
        assert forall|a: int, b: int| 0 <= a < b < f.len() implies before(
            #[trigger] f[a],
            #[trigger] f[b],
        ) by {
            if b < g.len() {
                assert(f[a] == g[a] && f[b] == g[b]);
            } else {
                assert(f[a] == g[a]);
                assert(rest.contains(g[a]));
                let u = choose|u: int| 0 <= u < rest.len() && rest[u] == g[a];
                assert(p[u] == g[a]);
                assert(f[b] == p[p.len() - 1]);
                assert(before(p[u], p[p.len() - 1]));
            }
        }
        assert forall|u: int| 0 <= u < p.len() && keep(p[u]) implies f.contains(
            #[trigger] p[u],
        ) by {
            if u < rest.len() {
                assert(rest[u] == p[u]);
                assert(g.contains(rest[u]));
                let k = choose|k: int| 0 <= k < g.len() && g[k] == rest[u];
                assert(f[k] == p[u]);
            } else {
                assert(f[f.len() - 1] == p[u]);
            }
        }
    }
}

/// Narrowing a leading list to the positions that a stricter test wants
/// gives a leading list for the stricter test, capped at its own length.
pub proof fn lemma_leading_restrict(
    n: int,
    wanted: spec_fn(int) -> bool,
    before: spec_fn(int, int) -> bool,
    cap: Option<int>,
    picked: Seq<int>,
    stricter: spec_fn(int) -> bool,
)
    requires
        is_leading(n, wanted, before, cap, picked),
        forall|i: int| 0 <= i < n && #[trigger] stricter(i) ==> wanted(i),
    ensures
        is_leading(
            n,
            stricter,
            before,
            Some(picked.filter(stricter).len() as int),
            picked.filter(stricter),
        ),
        cap is None || picked.len() < cap->0 ==> is_leading(
            n,
            stricter,
            before,
            None,
            picked.filter(stricter),
        ),
{
    let f = picked.filter(stricter);
    lemma_filter_keeps_order(picked, stricter, before);
    assert forall|k: int| 0 <= k < f.len() implies 0 <= #[trigger] f[k] < n && stricter(f[k]) by {
        assert(picked.contains(f[k]));
        let u = choose|u: int| 0 <= u < picked.len() && picked[u] == f[k];
        assert(0 <= picked[u] < n);
    }
    assert forall|i: int|
        #![trigger stricter(i)]
        0 <= i < n && stricter(i) && !f.contains(i) implies {
        &&& forall|k: int| 0 <= k < f.len() ==> before(#[trigger] f[k], i)
        &&& !picked.contains(i)
    } by {
        if picked.contains(i) {
            let u = choose|u: int| 0 <= u < picked.len() && picked[u] == i;
            assert(f.contains(picked[u]));
        }
        assert(wanted(i));
        assert forall|k: int| 0 <= k < f.len() implies before(#[trigger] f[k], i) by {
            assert(picked.contains(f[k]));
            let u = choose|u: int| 0 <= u < picked.len() && picked[u] == f[k];
            assert(before(picked[u], i));
        }
    }
    if cap is None || picked.len() < cap->0 {
        assert forall|i: int|
            #![trigger stricter(i)]
            0 <= i < n && stricter(i) implies f.contains(i) by {
            if !f.contains(i) {
                assert(wanted(i));
                assert(!picked.contains(i));
            }
        }
    }
}

/// A leading list stays one when the next position is not wanted.
pub proof fn lemma_leading_skip(
    i: int,
    wanted: spec_fn(int) -> bool,
    before: spec_fn(int, int) -> bool,
    cap: Option<int>,
    picked: Seq<int>,
)
    requires
        is_leading(i, wanted, before, cap, picked),
        !wanted(i),
    ensures
        is_leading(i + 1, wanted, before, cap, picked),
{
    assert forall|j: int|
        #![trigger wanted(j)]
        0 <= j < i + 1 && wanted(j) && !picked.contains(j) implies {
        &&& cap == Some(picked.len() as int)
        &&& forall|k: int| 0 <= k < picked.len() ==> before(#[trigger] picked[k], j)
    } by {
        assert(j < i);
    }
}

/// A full leading list stays one when every entry comes before the next
/// position.
pub proof fn lemma_leading_leave_out(
    i: int,
    wanted: spec_fn(int) -> bool,
    before: spec_fn(int, int) -> bool,
    cap: Option<int>,
    picked: Seq<int>,
)
    requires
        is_leading(i, wanted, before, cap, picked),
        cap == Some(picked.len() as int),
        forall|k: int| 0 <= k < picked.len() ==> before(#[trigger] picked[k], i),
    ensures
        is_leading(i + 1, wanted, before, cap, picked),
{
    assert forall|j: int|
        #![trigger wanted(j)]
        0 <= j < i + 1 && wanted(j) && !picked.contains(j) implies {
        &&& cap == Some(picked.len() as int)
        &&& forall|k: int| 0 <= k < picked.len() ==> before(#[trigger] picked[k], j)
    } by {
        if j < i {
        }
    }
}

/// In a leading list, where the entry in front of the place `at` comes
/// before position `i`, so does every entry in front of `at`.
proof fn lemma_front_comes_first(
    n: int,
    i: int,
    wanted: spec_fn(int) -> bool,
    before: spec_fn(int, int) -> bool,
    cap: Option<int>,
    picked: Seq<int>,
    at: int,
)
    requires
        is_strict_order(n, before),
        0 <= i < n,
        is_leading(i, wanted, before, cap, picked),
        0 <= at <= picked.len(),
        at == 0 || before(picked[at - 1], i),
    ensures
        forall|k: int| 0 <= k < at ==> before(#[trigger] picked[k], i),
{
    assert forall|k: int| 0 <= k < at implies before(#[trigger] picked[k], i) by {
        if k < at - 1 {
            assert(0 <= picked[k] < n);
            assert(0 <= picked[at - 1] < n);
            assert(before(picked[k], picked[at - 1]));
            assert(before(picked[at - 1], i));
        }
    }
}

/// Putting the next position, where it is wanted, at its place in a leading
/// list that is not full gives a leading list.
pub proof fn lemma_leading_insert(
    n: int,
    i: int,
    wanted: spec_fn(int) -> bool,
    before: spec_fn(int, int) -> bool,
    cap: Option<int>,
    picked: Seq<int>,
    at: int,
)
    requires
        is_strict_order(n, before),
        0 <= i < n,
        is_leading(i, wanted, before, cap, picked),
        wanted(i),
        0 <= at <= picked.len(),
        at == 0 || before(picked[at - 1], i),
        forall|k: int| at <= k < picked.len() ==> before(i, #[trigger] picked[k]),
        cap is None || picked.len() < cap->0,
    ensures
        is_leading(i + 1, wanted, before, cap, picked.insert(at, i)),
{
    let grown = picked.insert(at, i);
    lemma_front_comes_first(n, i, wanted, before, cap, picked, at);
    assert forall|k: int| 0 <= k < grown.len() implies 0 <= #[trigger] grown[k] < i + 1 && wanted(
        grown[k],
    ) by {
        if k < at {
            assert(grown[k] == picked[k]);
        } else if k > at {
            assert(grown[k] == picked[k - 1]);
        }
    }
    assert forall|a: int, b: int| 0 <= a < b < grown.len() implies before(
        #[trigger] grown[a],
        #[trigger] grown[b],
    ) by {
        if b < at {
            assert(grown[a] == picked[a] && grown[b] == picked[b]);
        } else if b == at {
            assert(grown[a] == picked[a]);
        } else if a < at {
            assert(grown[a] == picked[a] && grown[b] == picked[b - 1]);
        } else if a == at {
            assert(grown[b] == picked[b - 1]);
        } else {
            assert(grown[a] == picked[a - 1] && grown[b] == picked[b - 1]);
        }
    }
    assert forall|j: int|
        #![trigger wanted(j)]
        0 <= j < i + 1 && wanted(j) implies grown.contains(j) by {
        if j == i {
            assert(grown[at] == j);
        } else {
            assert(picked.contains(j));
            let u = choose|u: int| 0 <= u < picked.len() && picked[u] == j;
            if u < at {
                assert(grown[u] == j);
            } else {
                assert(grown[u + 1] == j);
            }
        }
    }
}

/// Putting the next position, where it is wanted, at its place in a full
/// leading list and dropping the last entry gives a leading list.
pub proof fn lemma_leading_displace(
    n: int,
    i: int,
    wanted: spec_fn(int) -> bool,
    before: spec_fn(int, int) -> bool,
    cap: Option<int>,
    picked: Seq<int>,
    at: int,
)
    requires
        is_strict_order(n, before),
        0 <= i < n,
        is_leading(i, wanted, before, cap, picked),
        wanted(i),
        0 <= at < picked.len(),
        at == 0 || before(picked[at - 1], i),
        forall|k: int| at <= k < picked.len() ==> before(i, #[trigger] picked[k]),
        cap == Some(picked.len() as int),
    ensures
        is_leading(i + 1, wanted, before, cap, picked.insert(at, i).drop_last()),
{
    let m = picked.len() as int;
    let kept = picked.insert(at, i).drop_last();
    let worst = picked[m - 1];
    lemma_front_comes_first(n, i, wanted, before, cap, picked, at);
    assert(kept.len() == m);
    assert(0 <= worst < n);
    assert(before(i, worst));
    assert forall|k: int| 0 <= k < kept.len() implies 0 <= #[trigger] kept[k] < i + 1 && wanted(
        kept[k],
    ) by {
        if k < at {
            assert(kept[k] == picked[k]);
        } else if k > at {
            assert(kept[k] == picked[k - 1]);
        }
    }
    assert forall|a: int, b: int| 0 <= a < b < kept.len() implies before(
        #[trigger] kept[a],
        #[trigger] kept[b],
    ) by {
        if b < at {
            assert(kept[a] == picked[a] && kept[b] == picked[b]);
        } else if b == at {
            assert(kept[a] == picked[a]);
        } else if a < at {
            assert(kept[a] == picked[a] && kept[b] == picked[b - 1]);
        } else if a == at {
            assert(kept[b] == picked[b - 1]);
        } else {
            assert(kept[a] == picked[a - 1] && kept[b] == picked[b - 1]);
        }
    }
    assert forall|j: int|
        #![trigger wanted(j)]
        0 <= j < i + 1 && wanted(j) && !kept.contains(j) implies {
        &&& cap == Some(kept.len() as int)
        &&& forall|k: int| 0 <= k < kept.len() ==> before(#[trigger] kept[k], j)
    } by {
        if j == i {
            assert(kept[at] == j);
        }
        assert forall|k: int| 0 <= k < kept.len() implies before(#[trigger] kept[k], j) by {
            let e = kept[k];
            assert(0 <= e < n);
            if j == worst {
                if k < at {
                    assert(e == picked[k]);
                } else if k > at {
                    assert(e == picked[k - 1]);
                }
            } else {
                if picked.contains(j) {
                    let u = choose|u: int| 0 <= u < picked.len() && picked[u] == j;
                    if u < at {
                        assert(kept[u] == j);
                    } else {
                        assert(kept[u + 1] == j);
                    }
                }
                assert(before(worst, j));
                if k < at {
                    assert(e == picked[k]);
                } else if k > at {
                    assert(e == picked[k - 1]);
                } else {
                    assert(before(i, worst) && before(worst, j));
                }
            }
        }
    }
}

/// A list that holds all wanted positions below `i` in rising order grows
/// by `i` where `i` is wanted.
pub proof fn lemma_leading_push(i: int, wanted: spec_fn(int) -> bool, picked: Seq<int>)
    requires
        0 <= i,
        is_leading(i, wanted, by_position(), None, picked),
        wanted(i),
    ensures
        is_leading(i + 1, wanted, by_position(), None, picked.push(i)),
{
    let before = by_position();
    lemma_by_position_strict(i + 1);
    let at = picked.len() as int;
    if at > 0 {
        assert(0 <= picked[at - 1] < i);
        assert(before(picked[at - 1], i));
    }
    lemma_leading_insert(i + 1, i, wanted, before, None, picked, at);
    assert(picked.insert(at, i) =~= picked.push(i));
}

/// A list that holds, in rising order, all wanted positions below `i` is the
/// leading list under a cap once all positions are seen or the cap is
/// reached.
pub proof fn lemma_leading_stop(
    n: int,
    i: int,
    wanted: spec_fn(int) -> bool,
    cap: int,
    picked: Seq<int>,
)
    requires
        0 <= i <= n,
        is_leading(i, wanted, by_position(), None, picked),
        picked.len() <= cap,
        i == n || picked.len() == cap,
    ensures
        is_leading(n, wanted, by_position(), Some(cap), picked),
{
    let before = by_position();
    assert forall|j: int|
        #![trigger wanted(j)]
        0 <= j < n && wanted(j) && !picked.contains(j) implies {
        &&& Some(cap) == Some(picked.len() as int)
        &&& forall|k: int| 0 <= k < picked.len() ==> before(#[trigger] picked[k], j)
    } by {
        if j < i {
            assert(false);
        }
        assert forall|k: int| 0 <= k < picked.len() implies before(#[trigger] picked[k], j) by {
            assert(0 <= picked[k] < i);
        }
    }
}

/// A list that holds all wanted positions in rising order has as many
/// entries as there are wanted positions.
pub proof fn lemma_all_in_order_count(n: int, wanted: spec_fn(int) -> bool, picked: Seq<int>)
    requires
        0 <= n,
        is_leading(n, wanted, by_position(), None, picked),
    ensures
        picked.len() == count_wanted(n, wanted),
    decreases n,
{
    if n == 0 {
        if picked.len() > 0 {
            assert(0 <= picked[0] < n);
        }
    } else {
        let before = by_position();
        if wanted(n - 1) {
            assert(picked.contains(n - 1));
            let u = choose|u: int| 0 <= u < picked.len() && picked[u] == n - 1;
            if u < picked.len() - 1 {
                assert(before(picked[u], picked[picked.len() - 1]));
                assert(picked[picked.len() - 1] < n);
            }
            let rest = picked.drop_last();
            assert forall|k: int| 0 <= k < rest.len() implies 0 <= #[trigger] rest[k] < n - 1
                && wanted(rest[k]) by {
                assert(rest[k] == picked[k]);
                assert(before(picked[k], picked[u]));
            }
            assert forall|a: int, b: int| 0 <= a < b < rest.len() implies before(
                #[trigger] rest[a],
                #[trigger] rest[b],
            ) by {
                assert(rest[a] == picked[a] && rest[b] == picked[b]);
            }
            assert forall|i: int|
                #![trigger wanted(i)]
                0 <= i < n - 1 && wanted(i) implies rest.contains(i) by {
                assert(picked.contains(i));
                let k = choose|k: int| 0 <= k < picked.len() && picked[k] == i;
                assert(rest[k] == i);
            }
            lemma_all_in_order_count(n - 1, wanted, rest);
        } else {
            assert forall|k: int| 0 <= k < picked.len() implies 0 <= #[trigger] picked[k] < n - 1
                && wanted(picked[k]) by {
                assert(wanted(picked[k]));
            }
            lemma_all_in_order_count(n - 1, wanted, picked);
        }
    }
}

} // verus!
