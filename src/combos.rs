use vstd::prelude::*;

verus! {

/// The number of pairs in the cross product of sets of `num_a` and `num_b`
/// points, as an unbounded integer.
pub open spec fn combination_count(num_a: nat, num_b: nat) -> nat {
    num_a * num_b
}

/// The pair of point indices at position `k` of the cross product when it is
/// enumerated A-major, B-minor (`for i in A { for j in B { .. } }`).
pub open spec fn pair_of(k: nat, num_b: nat) -> (nat, nat) {
    (k / num_b, k % num_b)
}

/// Number of pairs in the cross product of two point sets.
///
/// The product saturates at `usize::MAX` rather than wrapping, so a caller
/// that sizes buffers from it never sees a count smaller than the real one
/// without that count being `usize::MAX`.
pub fn get_combination_count(num_a: usize, num_b: usize) -> (r: usize)
    ensures
        combination_count(num_a as nat, num_b as nat) <= usize::MAX ==> r == num_a * num_b,
        combination_count(num_a as nat, num_b as nat) > usize::MAX ==> r == usize::MAX,
{
    match num_a.checked_mul(num_b) {
        Some(c) => c,
        None => usize::MAX,
    }
}

/// Number of whole points in a flat coordinate buffer of `flat_len` numbers.
///
/// Each point takes two numbers. A trailing unpaired number is not a point
/// and is ignored: the buffer is truncated, never rejected.
pub fn point_count(flat_len: usize) -> (r: usize)
    ensures
        r == flat_len / 2,
        2 * r <= flat_len,
        flat_len % 2 == 0 ==> 2 * r == flat_len,
{
    flat_len / 2
}

/// The index into set A and the index into set B of position `k` of the
/// A-major enumeration of the cross product.
pub fn pair_at(k: usize, num_b: usize) -> (r: (usize, usize))
    requires
        num_b > 0,
    ensures
        (r.0 as nat, r.1 as nat) == pair_of(k as nat, num_b as nat),
        r.1 < num_b,
        k == r.0 * num_b + r.1,
{
    proof {
        vstd::arithmetic::div_mod::lemma_fundamental_div_mod(k as int, num_b as int);
    }
    proof {
        vstd::arithmetic::div_mod::lemma_fundamental_div_mod(k as int, num_b as int);
        vstd::arithmetic::mul::lemma_mul_is_commutative(num_b as int, k as int / num_b as int);
    }
    (k / num_b, k % num_b)
}

/// Every pair of the cross product of sets of `num_a` and `num_b` points, in
/// A-major, B-minor order: entry `i * num_b + j` is `(i, j)`.
pub fn cross_pairs(num_a: usize, num_b: usize) -> (r: Vec<(usize, usize)>)
    requires
        combination_count(num_a as nat, num_b as nat) <= usize::MAX,
    ensures
        r@.len() == combination_count(num_a as nat, num_b as nat),
        forall|k: int|
            0 <= k < r@.len() ==> (#[trigger] r@[k]).0 < num_a && r@[k].1 < num_b
                && (r@[k].0 as nat, r@[k].1 as nat) == pair_of(k as nat, num_b as nat),
        forall|i: int, j: int|
            0 <= i < num_a && 0 <= j < num_b ==> #[trigger] r@[i * num_b + j] == (
            i as usize,
            j as usize,
        ),
{
    let mut r: Vec<(usize, usize)> = Vec::new();
    let mut i: usize = 0;
    while i < num_a
        invariant
            i <= num_a,
            num_a * num_b <= usize::MAX,
            r@.len() == i * num_b,
            forall|k: int|
                0 <= k < r@.len() ==> #[trigger] r@[k] == ((k / num_b as int) as usize, (k
                    % num_b as int) as usize),
        decreases num_a - i,
    {
        let mut j: usize = 0;
        while j < num_b
            invariant
                i < num_a,
                j <= num_b,
                num_a * num_b <= usize::MAX,
                r@.len() == i * num_b + j,
                forall|k: int|
                    0 <= k < r@.len() ==> #[trigger] r@[k] == ((k / num_b as int) as usize, (k
                        % num_b as int) as usize),
            decreases num_b - j,
        {
            proof {
                lemma_position_split(i as int, j as int, num_b as int);
            }
            r.push((i, j));
            j = j + 1;
        }
        proof {
            assert(r@.len() == (i + 1) * num_b) by (nonlinear_arith)
                requires
                    r@.len() == i * num_b + num_b,
            ;
        }
        i = i + 1;
    }
    proof {
        assert forall|k: int| 0 <= k < r@.len() implies (#[trigger] r@[k]).0 < num_a && r@[k].1
            < num_b && (r@[k].0 as nat, r@[k].1 as nat) == pair_of(k as nat, num_b as nat) by {
            lemma_position_bounds(k, num_a as int, num_b as int);
        }
        assert forall|i: int, j: int| 0 <= i < num_a && 0 <= j < num_b implies #[trigger] r@[i
            * num_b + j] == (i as usize, j as usize) by {
            lemma_position_split(i, j, num_b as int);
            assert(i * num_b + j < num_a * num_b) by (nonlinear_arith)
                requires
                    0 <= i < num_a,
                    0 <= j < num_b,
            ;
        }
    }
    r
}

/// Position `i * n + j` of an A-major enumeration with `j < n` splits back
/// into `i` and `j`.
proof fn lemma_position_split(i: int, j: int, n: int)
    requires
        0 <= i,
        0 <= j < n,
    ensures
        (i * n + j) / n == i,
        (i * n + j) % n == j,
        0 <= i * n + j,
{
    assert(0 <= i * n) by (nonlinear_arith)
        requires
            0 <= i,
            0 < n,
    ;
    vstd::arithmetic::div_mod::lemma_fundamental_div_mod_converse(i * n + j, n, i, j);
}

/// A position below `a * n` splits into an index below `a` and one below `n`.
proof fn lemma_position_bounds(k: int, a: int, n: int)
    requires
        0 <= k < a * n,
        0 <= a,
        0 <= n,
    ensures
        0 < n,
        0 <= k / n < a,
        0 <= k % n < n,
{
    assert(0 < n) by (nonlinear_arith)
        requires
            0 <= k < a * n,
            0 <= a,
            0 <= n,
    ;
    vstd::arithmetic::div_mod::lemma_div_pos_is_pos(k, n);
    vstd::arithmetic::div_mod::lemma_mod_bound(k, n);
    vstd::arithmetic::div_mod::lemma_fundamental_div_mod(k, n);
    if k / n >= a {
        assert(k >= a * n) by (nonlinear_arith)
            requires
                k == n * (k / n) + k % n,
                k / n >= a,
                k % n >= 0,
                n > 0,
        ;
    }
}

} // verus!
