//! Permutation generation: every arrangement of the numbers 1..=8, each
//! produced exactly once, by in-place recursive exchange.  Each element is
//! exchanged in turn into the last position of the active prefix, the
//! shorter prefix is permuted recursively, and the exchange is undone, so
//! the buffer is mutated in place during the whole traversal and copied
//! into an owned value only at each emission.  The restoring discipline is
//! what makes the enumeration provably complete and duplicate-free: every
//! sub-call starts from a known arrangement, and each of its emissions
//! pins a distinct element in the last active position.

use crate::fact;
use crate::is_perm8;
use vstd::prelude::*;

verus! {

/// Exchanging two cells of a valid card leaves a valid card.
proof fn lemma_swap_preserves_perm8(s: Seq<u8>, i: int, j: int)
    requires
        is_perm8(s),
        0 <= i < 8,
        0 <= j < 8,
    ensures
        is_perm8(s.update(i, s[j]).update(j, s[i])),
{
    let t = s.update(i, s[j]).update(j, s[i]);
    assert forall|v: u8| 1 <= v <= 8 implies #[trigger] t.contains(v) by {
        assert(s.contains(v));
        let k = choose|k: int| 0 <= k < s.len() && s[k] == v;
        if k == j {
            assert(t[i] == v);
        } else if k == i {
            assert(t[j] == v);
        } else {
            assert(t[k] == v);
        }
    }
}

/// Exchange the cells at positions `i` and `j`.
fn swap_cells(a: &mut Vec<u8>, i: usize, j: usize)
    requires
        is_perm8(old(a)@),
        i < 8,
        j < 8,
    ensures
        final(a)@ == old(a)@.update(i as int, old(a)@[j as int]).update(j as int, old(a)@[i as int]),
        is_perm8(final(a)@),
{
    proof {
        lemma_swap_preserves_perm8(old(a)@, i as int, j as int);
    }
    let vi = a[i];
    let vj = a[j];
    a[i] = vj;
    a[j] = vi;
}

/// An owned copy of the working buffer, taken at emission time.
fn copy_card(a: &Vec<u8>) -> (r: Vec<u8>)
    ensures
        r@ == a@,
{
    let mut r: Vec<u8> = Vec::new();
    let mut i: usize = 0;
    while i < a.len()
        invariant
            i <= a@.len(),
            r@.len() == i,
            forall|t: int| 0 <= t < i ==> r@[t] == a@[t],
        decreases a@.len() - i,
    {
        r.push(a[i]);
        i += 1;
    }
    assert(r@ =~= a@);
    r
}

/// Recursive exchange generation over the first `k` cells of the working
/// buffer `a`: each cell of the active prefix takes one turn in the
/// prefix's last position, the shorter prefix is permuted recursively, and
/// the exchange is then undone, so the buffer is restored on return.
/// Appends exactly `k!` arrangements to `out`, each an owned, valid card;
/// the new arrangements are pairwise distinct, agree with the buffer on
/// every cell beyond the first `k`, and include every valid card that so
/// agrees.  Everything previously in `out` is left untouched.
pub fn exchange_permute(k: usize, a: &mut Vec<u8>, out: &mut Vec<Vec<u8>>)
    requires
        1 <= k <= 8,
        is_perm8(old(a)@),
    ensures
        final(a)@ == old(a)@,
        final(out)@.len() == old(out)@.len() + fact(k as nat),
        forall|t: int| 0 <= t < old(out)@.len() ==> final(out)@[t] == old(out)@[t],
        forall|t: int|
            old(out)@.len() <= t < final(out)@.len() ==> is_perm8(#[trigger] final(out)@[t]@),
        forall|t: int, p: int|
            old(out)@.len() <= t < final(out)@.len() && k <= p < 8
                ==> #[trigger] final(out)@[t]@[p] == old(a)@[p],
        forall|t1: int, t2: int|
            #![trigger final(out)@[t1], final(out)@[t2]]
            old(out)@.len() <= t1 < t2 < final(out)@.len()
                ==> final(out)@[t1]@ != final(out)@[t2]@,
        forall|s: Seq<u8>|
            #[trigger] is_perm8(s) && (forall|p: int| k <= p < 8 ==> s[p] == old(a)@[p])
                ==> exists|t: int|
                old(out)@.len() <= t < final(out)@.len() && final(out)@[t]@ == s,
    decreases k,
{
    if k == 1 {
        let emitted = copy_card(a);
        out.push(emitted);
        assert(fact(0) == 1);
        assert(fact(1) == 1);
        proof {
            let entry = old(a)@;
            let ghost emitted_at = old(out)@.len() as int;
            assert forall|s: Seq<u8>|
                #[trigger] is_perm8(s) && (forall|p: int| 1 <= p < 8 ==> s[p] == entry[p])
                    implies exists|t: int|
                    old(out)@.len() <= t < out@.len() && out@[t]@ == s by {
                assert(s.contains(entry[0]));
                let q = choose|q: int| 0 <= q < s.len() && s[q] == entry[0];
                if q != 0 {
                    assert(s[q] == entry[q]);
                    assert(entry[0] != entry[q]);
                    assert(false);
                }
                assert(s =~= entry);
                assert(out@[emitted_at]@ == s);
            }
        }
        return ;
    }
    let ghost entry = old(a)@;
    let ghost base = old(out)@;
    let ghost f = fact((k - 1) as nat);
    let mut i: usize = 0;
    while i < k
        invariant
            2 <= k <= 8,
            i <= k,
            a@ == entry,
            is_perm8(entry),
            out@.len() == base.len() + i * f,
            f == fact((k - 1) as nat),
            forall|t: int| 0 <= t < base.len() ==> out@[t] == base[t],
            forall|t: int| base.len() <= t < out@.len() ==> is_perm8(#[trigger] out@[t]@),
            forall|t: int, p: int|
                base.len() <= t < out@.len() && k <= p < 8 ==> #[trigger] out@[t]@[p] == entry[p],
            forall|t: int|
                base.len() <= t < out@.len() ==> exists|r: int|
                    0 <= r < i && (#[trigger] out@[t])@[k - 1] == entry[r],
            forall|t1: int, t2: int|
                #![trigger out@[t1], out@[t2]]
                base.len() <= t1 < t2 < out@.len() ==> out@[t1]@ != out@[t2]@,
            forall|s: Seq<u8>|
                #[trigger] is_perm8(s) && (forall|p: int| k <= p < 8 ==> s[p] == entry[p]) && (
                exists|r: int| 0 <= r < i && entry[r] == s[k - 1]) ==> exists|t: int|
                    base.len() <= t < out@.len() && out@[t]@ == s,
        decreases k - i,
    {
        let ghost out_at_top = out@;
        swap_cells(a, i, k - 1);
        let ghost swapped = a@;
        let ghost len_before = out@.len();
        exchange_permute(k - 1, a, out);
        swap_cells(a, i, k - 1);
        proof {
            assert(a@ =~= entry);
            assert((i + 1) * f == i * f + f) by (nonlinear_arith);
            assert(swapped[k - 1] == entry[i as int]);
            assert forall|t: int| len_before <= t < out@.len() implies (#[trigger] out@[t])@[k - 1]
                == entry[i as int] by {
                assert(out@[t]@[k - 1] == swapped[k - 1]);
            }
            assert forall|t1: int, t2: int|
                #![trigger out@[t1], out@[t2]]
                base.len() <= t1 < t2 < out@.len() implies out@[t1]@ != out@[t2]@ by {
                if len_before <= t1 {
                } else if t2 < len_before {
                } else {
                    let r = choose|r: int| 0 <= r < i && out@[t1]@[k - 1] == entry[r];
                    assert(out@[t2]@[k - 1] == entry[i as int]);
                    assert(out@[t1]@[k - 1] != out@[t2]@[k - 1]);
                }
            }
            assert forall|t: int| base.len() <= t < out@.len() implies exists|r: int|
                0 <= r < i + 1 && (#[trigger] out@[t])@[k - 1] == entry[r] by {
                if t < len_before {
                    let r = choose|r: int| 0 <= r < i && out@[t]@[k - 1] == entry[r];
                    assert(0 <= r < i + 1 && out@[t]@[k - 1] == entry[r]);
                } else {
                    assert(out@[t]@[k - 1] == entry[i as int]);
                }
            }
            assert forall|s: Seq<u8>|
                #[trigger] is_perm8(s) && (forall|p: int| k <= p < 8 ==> s[p] == entry[p]) && (
                exists|r: int| 0 <= r < i + 1 && entry[r] == s[k - 1]) implies exists|t: int|
                base.len() <= t < out@.len() && out@[t]@ == s by {
                let r = choose|r: int| 0 <= r < i + 1 && entry[r] == s[k - 1];
                if r < i {
                    assert(exists|t: int|
                        base.len() <= t < out_at_top.len() && out_at_top[t]@ == s);
                    let t0 = choose|t: int|
                        base.len() <= t < out_at_top.len() && out_at_top[t]@ == s;
                    assert(out@[t0] == out_at_top[t0]);
                } else {
                    assert forall|p: int| k - 1 <= p < 8 implies s[p] == swapped[p] by {
                        if p == k - 1 {
                            assert(swapped[k - 1] == entry[i as int]);
                        } else {
                            assert(swapped[p] == entry[p]);
                        }
                    }
                    assert(exists|t: int| len_before <= t < out@.len() && out@[t]@ == s);
                }
            }
        }
        i += 1;
    }
    proof {
        assert(out@.len() == base.len() + k * f);
        assert(fact(k as nat) == k * fact((k - 1) as nat));
        assert forall|s: Seq<u8>|
            #[trigger] is_perm8(s) && (forall|p: int| k <= p < 8 ==> s[p] == entry[p])
                implies exists|t: int| base.len() <= t < out@.len() && out@[t]@ == s by {
            assert(1 <= s[k - 1] <= 8);
            assert(entry.contains(s[k - 1]));
            let j = choose|j: int| 0 <= j < entry.len() && entry[j] == s[k - 1];
            if j >= k {
                assert(s[j] == entry[j]);
                assert(s[j] == s[k - 1]);
                assert(false);
            }
            assert(exists|r: int| 0 <= r < k && entry[r] == s[k - 1]);
        }
    }
}

/// Every arrangement of the numbers 1..=8: exactly 8! = 40320 owned cards,
/// pairwise distinct, with no valid card missing.  The order of production
/// is deterministic but otherwise unspecified.
pub fn generate_permutations() -> (perms: Vec<Vec<u8>>)
    ensures
        perms@.len() == fact(8),
        perms@.len() == 40320,
        forall|t: int| 0 <= t < perms@.len() ==> is_perm8(#[trigger] perms@[t]@),
        forall|t1: int, t2: int|
            #![trigger perms@[t1], perms@[t2]]
            0 <= t1 < t2 < perms@.len() ==> perms@[t1]@ != perms@[t2]@,
        forall|s: Seq<u8>|
            #[trigger] is_perm8(s) ==> exists|t: int| 0 <= t < perms@.len() && perms@[t]@ == s,
{
    let mut base: Vec<u8> = Vec::new();
    let mut v: u8 = 1;
    while v <= 8
        invariant
            1 <= v <= 9,
            base@.len() == v - 1,
            forall|t: int| 0 <= t < v - 1 ==> base@[t] == t + 1,
        decreases 9 - v,
    {
        base.push(v);
        v += 1;
    }
    proof {
        assert forall|w: u8| 1 <= w <= 8 implies #[trigger] base@.contains(w) by {
            assert(base@[w - 1] == w);
        }
        assert(is_perm8(base@));
    }
    let mut out: Vec<Vec<u8>> = Vec::new();
    exchange_permute(8, &mut base, &mut out);
    proof {
        lemma_fact8_value();
    }
    out
}

/// 8! evaluates to 40320.
proof fn lemma_fact8_value()
    ensures
        fact(8) == 40320,
{
    assert(fact(0) == 1);
    assert(fact(1) == 1);
    assert(fact(2) == 2);
    assert(fact(3) == 6);
    assert(fact(4) == 24);
    assert(fact(5) == 120);
    assert(fact(6) == 720);
    assert(fact(7) == 5040);
    assert(fact(8) == 40320);
}

} // verus!
