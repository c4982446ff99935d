//! Exhaustive win-probability analysis for 8-cell bingo cards.
//!
//! A card lays out the numbers 1..=8 over 8 positions; a call order announces
//! those numbers one at a time.  A card is complete at the first turn at which
//! some winning line (a fixed set of positions) is fully called.  For a fixed
//! reference card, the library enumerates all 8! candidate cards, reuses the
//! same enumeration as the universe of call orders, and tallies for every
//! candidate over all call orders how often the reference card completes
//! strictly earlier, and how often the two complete together.

use vstd::prelude::*;

pub mod compare;
pub mod engine;
pub mod perm;

verus! {

/// n factorial.
pub open spec fn fact(n: nat) -> nat
    decreases n,
{
    if n == 0 {
        1
    } else {
        n * fact((n - 1) as nat)
    }
}

/// `s` is a valid 8-cell card layout (equally: a valid call order): it holds
/// each of the numbers 1..=8 exactly once.
pub open spec fn is_perm8(s: Seq<u8>) -> bool {
    &&& s.len() == 8
    &&& forall|i: int| 0 <= i < 8 ==> 1 <= #[trigger] s[i] <= 8
    &&& forall|i: int, j: int| 0 <= i < j < 8 ==> s[i] != s[j]
    &&& forall|v: u8| 1 <= v <= 8 ==> #[trigger] s.contains(v)
}

/// Runtime check that `c` is a valid card: 8 cells, each of 1..=8 present,
/// no cell repeated.  Lets unverified callers establish `is_perm8` before
/// handing a card to the rest of the library.
pub fn is_valid_card(c: &Vec<u8>) -> (b: bool)
    ensures
        b == is_perm8(c@),
{
    if c.len() != 8 {
        return false;
    }
    let mut i: usize = 0;
    while i < 8
        invariant
            i <= 8,
            c@.len() == 8,
            forall|t: int| 0 <= t < i ==> 1 <= #[trigger] c@[t] <= 8,
        decreases 8 - i,
    {
        if c[i] < 1 || c[i] > 8 {
            return false;
        }
        i += 1;
    }
    let mut i: usize = 0;
    while i < 8
        invariant
            i <= 8,
            c@.len() == 8,
            forall|s: int, t: int| 0 <= s < t < 8 && s < i ==> c@[s] != c@[t],
        decreases 8 - i,
    {
        let mut j: usize = i + 1;
        while j < 8
            invariant
                i < j <= 8,
                c@.len() == 8,
                forall|t: int| i < t < j ==> c@[i as int] != #[trigger] c@[t],
            decreases 8 - j,
        {
            if c[i] == c[j] {
                return false;
            }
            j += 1;
        }
        i += 1;
    }
    let mut v: u8 = 1;
    while v <= 8
        invariant
            1 <= v <= 9,
            c@.len() == 8,
            forall|w: u8| 1 <= w < v ==> #[trigger] c@.contains(w),
        decreases 9 - v,
    {
        let mut j: usize = 0;
        let mut found = false;
        while j < 8
            invariant
                j <= 8,
                c@.len() == 8,
                found ==> c@.contains(v),
                !found ==> forall|t: int| 0 <= t < j ==> c@[t] != v,
            decreases 8 - j,
        {
            if c[j] == v {
                found = true;
            }
            j += 1;
        }
        if !found {
            assert(!c@.contains(v));
            return false;
        }
        v += 1;
    }
    true
}

} // verus!
