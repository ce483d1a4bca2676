use crate::combos::combination_count;
use vstd::prelude::*;

verus! {

/// Position `a` ranks before position `b`: its key is lower, or the keys are
/// equal and `a` comes first. Positions follow the A-major enumeration of the
/// cross product, so ties fall back to the index into A, then into B.
pub open spec fn ranks_before(keys: Seq<u64>, a: int, b: int) -> bool {
    keys[a] < keys[b] || (keys[a] == keys[b] && a < b)
}

/// `r` lists positions below `bound`, strictly in ranking order.
pub open spec fn ranked_below(keys: Seq<u64>, r: Seq<usize>, bound: int) -> bool {
    &&& forall|t: int| 0 <= t < r.len() ==> #[trigger] r[t] < bound
    &&& forall|s: int, t: int|
        0 <= s < t < r.len() ==> ranks_before(keys, #[trigger] r[s] as int, #[trigger] r[t] as int)
}

/// Every position below `bound` that `r` leaves out ranks after every
/// position that `r` lists.
pub open spec fn keeps_only_best(keys: Seq<u64>, r: Seq<usize>, bound: int) -> bool {
    forall|q: usize, t: int|
        #![trigger r.contains(q), r[t]]
        q < bound && !r.contains(q) && 0 <= t < r.len() ==> ranks_before(keys, r[t] as int, q as int)
}

/// `r` is the best `n` positions of `keys` (all of them when there are fewer),
/// best first.
pub open spec fn is_top(keys: Seq<u64>, n: nat, r: Seq<usize>) -> bool {
    &&& r.len() == if n < keys.len() {
        n
    } else {
        keys.len()
    }
    &&& ranked_below(keys, r, keys.len() as int)
    &&& keeps_only_best(keys, r, keys.len() as int)
}

/// Positions of the best `top_n` keys, best first.
///
/// A key ranks better when it is lower; equal keys rank by position. The
/// result holds `min(top_n, keys.len())` positions, and every position it
/// leaves out ranks after every position it holds.
///
/// The scan keeps a sorted buffer of at most `top_n` positions: a key that
/// does not beat the buffer's worst costs one comparison, so when `top_n` is
/// small next to `keys.len()` the work stays close to one pass, with no sort of
/// the whole input.
pub fn select_best(keys: &Vec<u64>, top_n: usize) -> (r: Vec<usize>)
    ensures
        is_top(keys@, top_n as nat, r@),
        forall|s: int, t: int|
            0 <= s < t < r@.len() ==> keys@[#[trigger] r@[s] as int] <= keys@[#[trigger] r@[t] as int],
{
    let mut r: Vec<usize> = Vec::new();
    let mut p: usize = 0;
    while p < keys.len()
        invariant
            p <= keys@.len(),
            r@.len() == if top_n < p { top_n as int } else { p as int },
            ranked_below(keys@, r@, p as int),
            keeps_only_best(keys@, r@, p as int),
            r@.len() < top_n ==> forall|q: usize| q < p ==> #[trigger] r@.contains(q),
        decreases keys@.len() - p,
    {
        if r.len() < top_n {
            let idx = insertion_point(keys, &r, p);
            let ghost before = r@;
            proof {
                lemma_insert(keys@, r@, idx as int, p);
            }
            r.insert(idx, p);
            proof {
                assert forall|q: usize| q < p + 1 implies #[trigger] r@.contains(q) by {
                    if q < p {
                        assert(before.contains(q));
                    }
                }
            }
        } else if top_n > 0 && keys[p] < keys[r[r.len() - 1]] {
            let idx = insertion_point(keys, &r, p);
            let ghost before = r@;
            proof {
                lemma_insert_drop(keys@, r@, idx as int, p);
            }
            r.insert(idx, p);
            r.pop();
            proof {
                assert(r@ =~= before.insert(idx as int, p).drop_last());
            }
        }
        p = p + 1;
    }
    r
}

/// Where `p`, a position after every one in `r`, goes in `r`'s ranking order.
fn insertion_point(keys: &Vec<u64>, r: &Vec<usize>, p: usize) -> (idx: usize)
    requires
        p < keys@.len(),
        ranked_below(keys@, r@, p as int),
    ensures
        idx <= r@.len(),
        forall|s: int| 0 <= s < idx ==> ranks_before(keys@, #[trigger] r@[s] as int, p as int),
        forall|s: int|
            idx <= s < r@.len() ==> ranks_before(keys@, p as int, #[trigger] r@[s] as int),
{
    let mut idx: usize = r.len();
    while idx > 0 && keys[p] < keys[r[idx - 1]]
        invariant
            idx <= r@.len(),
            p < keys@.len(),
            ranked_below(keys@, r@, p as int),
            forall|s: int|
                idx <= s < r@.len() ==> ranks_before(keys@, p as int, #[trigger] r@[s] as int),
        decreases idx,
    {
        idx = idx - 1;
    }
    proof {
        if idx > 0 {
            let last = idx - 1;
            assert(ranks_before(keys@, r@[last as int] as int, p as int));
            assert forall|s: int| 0 <= s < idx implies ranks_before(
                keys@,
                #[trigger] r@[s] as int,
                p as int,
            ) by {
                if s < last {
                    assert(ranks_before(keys@, r@[s] as int, r@[last as int] as int));
                }
            }
        }
    }
    idx
}

/// Putting `p` at a place that keeps the ranking order keeps `r` ranked and
/// loses nothing that `r` held.
proof fn lemma_insert(keys: Seq<u64>, r: Seq<usize>, idx: int, p: usize)
    requires
        p < keys.len(),
        ranked_below(keys, r, p as int),
        0 <= idx <= r.len(),
        forall|s: int| 0 <= s < idx ==> ranks_before(keys, #[trigger] r[s] as int, p as int),
        forall|s: int| idx <= s < r.len() ==> ranks_before(keys, p as int, #[trigger] r[s] as int),
    ensures
        ranked_below(keys, r.insert(idx, p), p + 1),
        r.insert(idx, p).contains(p),
        forall|x: usize| r.contains(x) ==> #[trigger] r.insert(idx, p).contains(x),
{
    let n = r.insert(idx, p);
    r.insert_ensures(idx, p);
    assert(n[idx] == p);
    assert forall|s: int, t: int| 0 <= s < t < n.len() implies ranks_before(
        keys,
        #[trigger] n[s] as int,
        #[trigger] n[t] as int,
    ) by {
        if t < idx {
        } else if t == idx {
        } else if s < idx {
            assert(n[t] == r[t - 1]);
            assert(ranks_before(keys, r[s] as int, p as int));
        } else if s == idx {
            assert(n[t] == r[t - 1]);
        } else {
            assert(n[t] == r[t - 1]);
            assert(n[s] == r[s - 1]);
        }
    }
    assert forall|x: usize| r.contains(x) implies #[trigger] n.contains(x) by {
        let i = choose|i: int| 0 <= i < r.len() && r[i] == x;
        if i < idx {
            assert(n[i] == x);
        } else {
            assert(n[i + 1] == x);
        }
    }
}

/// When `p` beats the worst of a full buffer, putting `p` in its place and
/// dropping the worst keeps the buffer ranked and still holding the best.
proof fn lemma_insert_drop(keys: Seq<u64>, r: Seq<usize>, idx: int, p: usize)
    requires
        p < keys.len(),
        r.len() > 0,
        ranked_below(keys, r, p as int),
        keeps_only_best(keys, r, p as int),
        ranks_before(keys, p as int, r.last() as int),
        0 <= idx <= r.len(),
        forall|s: int| 0 <= s < idx ==> ranks_before(keys, #[trigger] r[s] as int, p as int),
        forall|s: int| idx <= s < r.len() ==> ranks_before(keys, p as int, #[trigger] r[s] as int),
    ensures
        r.insert(idx, p).drop_last().len() == r.len(),
        ranked_below(keys, r.insert(idx, p).drop_last(), p + 1),
        keeps_only_best(keys, r.insert(idx, p).drop_last(), p + 1),
{
    let e = r.last();
    let m = r.insert(idx, p);
    let n = m.drop_last();
    lemma_insert(keys, r, idx, p);
    r.insert_ensures(idx, p);
    assert(idx < r.len()) by {
        if idx == r.len() {
            assert(ranks_before(keys, r[r.len() - 1] as int, p as int));
        }
    }
    assert(m.last() == e);
    assert(n[idx] == p);
    assert forall|t: int| 0 <= t < n.len() implies ranks_before(
        keys,
        #[trigger] n[t] as int,
        e as int,
    ) by {
        if t < idx {
            assert(n[t] == r[t]);
        } else if t > idx {
            assert(n[t] == r[t - 1]);
        }
    }
    assert forall|x: usize| r.contains(x) && x != e implies #[trigger] n.contains(x) by {
        let i = choose|i: int| 0 <= i < r.len() && r[i] == x;
        if i < idx {
            assert(n[i] == x);
        } else {
            assert(i + 1 < m.len() - 1);
            assert(n[i + 1] == x);
        }
    }
    assert forall|q: usize, t: int|
        #![trigger n.contains(q), n[t]]
        q < p + 1 && !n.contains(q) && 0 <= t < n.len() implies ranks_before(
        keys,
        n[t] as int,
        q as int,
    ) by {
        assert(n.contains(p));
        assert(ranks_before(keys, n[t] as int, e as int));
        if q != e {
            assert(!r.contains(q));
            assert(ranks_before(keys, r[r.len() - 1] as int, q as int));
        }
    }
}

/// With either point set empty there is nothing to pair: the cross product
/// has no pairs, and a best-`n` selection over their keys is empty whatever
/// `n` is.
pub proof fn lemma_empty_set_gives_nothing(num_a: nat, num_b: nat, keys: Seq<u64>, n: nat, r: Seq<usize>)
    requires
        num_a == 0 || num_b == 0,
        keys.len() == combination_count(num_a, num_b),
        is_top(keys, n, r),
    ensures
        combination_count(num_a, num_b) == 0,
        r.len() == 0,
{
    assert(num_a * num_b == 0) by (nonlinear_arith)
        requires
            num_a == 0 || num_b == 0,
    ;
}

/// The best `n` positions are determined by the keys alone: two sequences
/// that are both the best `n` are the same sequence. So a selection agrees
/// with the first `n` entries of a full sort of all positions by key, then
/// by position.
pub proof fn lemma_top_is_unique(keys: Seq<u64>, n: nat, r1: Seq<usize>, r2: Seq<usize>)
    requires
        is_top(keys, n, r1),
        is_top(keys, n, r2),
    ensures
        r1 == r2,
{
    lemma_same_prefix(keys, n, r1, r2, r1.len() as int);
    assert(r1 =~= r2);
}

/// Two best-`n` sequences agree on their first `t` entries.
proof fn lemma_same_prefix(keys: Seq<u64>, n: nat, r1: Seq<usize>, r2: Seq<usize>, t: int)
    requires
        is_top(keys, n, r1),
        is_top(keys, n, r2),
        0 <= t <= r1.len(),
    ensures
        forall|k: int| 0 <= k < t ==> r1[k] == r2[k],
    decreases t,
{
    if t > 0 {
        lemma_same_prefix(keys, n, r1, r2, t - 1);
        let u = t - 1;
        lemma_first_difference(keys, n, r1, r2, u);
        lemma_first_difference(keys, n, r2, r1, u);
    }
}

/// Where two best-`n` sequences first differ, the entry of the first cannot
/// rank before the entry of the second.
proof fn lemma_first_difference(keys: Seq<u64>, n: nat, r1: Seq<usize>, r2: Seq<usize>, u: int)
    requires
        is_top(keys, n, r1),
        is_top(keys, n, r2),
        0 <= u < r1.len(),
        forall|k: int| 0 <= k < u ==> r1[k] == r2[k],
    ensures
        !ranks_before(keys, r1[u] as int, r2[u] as int),
{
    let x = r1[u];
    let y = r2[u];
    if ranks_before(keys, x as int, y as int) {
        if r2.contains(x) {
            let w = choose|w: int| 0 <= w < r2.len() && r2[w] == x;
            if w < u {
                assert(r1[w] == x);
                assert(ranks_before(keys, r1[w] as int, r1[u] as int));
            } else {
                assert(w != u);
                assert(ranks_before(keys, r2[u] as int, r2[w] as int));
            }
        } else {
            assert(ranks_before(keys, r2[u] as int, x as int));
        }
    }
}

} // verus!
