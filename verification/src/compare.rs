//! Pairwise comparison and aggregation: for a fixed reference card, tally
//! over every call order how often the reference completes strictly before
//! each candidate card, and how often the two complete together.  The
//! per-candidate tallies are independent of one another, so the candidate
//! loop is farmed out to a data-parallel map.

use crate::engine::{
    bingo_time_from_calltime, call_times_for, completion_vs_order, inverts,
    lemma_completion_from_order, lines, make_lines,
};
use crate::fact;
use crate::is_perm8;
use crate::perm::generate_permutations;
use rayon::iter::IndexedParallelIterator;
use rayon::iter::IntoParallelRefIterator;
use rayon::iter::ParallelIterator;
use vstd::prelude::*;

verus! {

/// Outcome counts for one candidate card against the reference card, over a
/// set of call orders.  `wins` counts the orders under which the reference
/// completes strictly earlier than the candidate; `draws` counts those under
/// which the two complete at the same turn.  The remaining orders are losses.
#[derive(Clone, Copy, PartialEq, Eq, Structural, Debug)]
pub struct Tally {
    pub wins: u32,
    pub draws: u32,
}

/// Over the first `n` of `orders`: how many call orders let card `a`
/// complete strictly before card `b`.
pub open spec fn win_count(a: Seq<u8>, b: Seq<u8>, orders: Seq<Seq<u8>>, n: int) -> int
    decreases n,
{
    if n <= 0 {
        0
    } else {
        win_count(a, b, orders, n - 1) + if completion_vs_order(a, orders[n - 1])
            < completion_vs_order(b, orders[n - 1]) {
            1int
        } else {
            0int
        }
    }
}

/// Over the first `n` of `orders`: how many call orders let cards `a` and
/// `b` complete at the same turn.
pub open spec fn draw_count(a: Seq<u8>, b: Seq<u8>, orders: Seq<Seq<u8>>, n: int) -> int
    decreases n,
{
    if n <= 0 {
        0
    } else {
        draw_count(a, b, orders, n - 1) + if completion_vs_order(a, orders[n - 1])
            == completion_vs_order(b, orders[n - 1]) {
            1int
        } else {
            0int
        }
    }
}

/// A card racing itself ties under every call order: its completion times as
/// reference and as candidate coincide, so it never wins and always draws,
/// and the aggregate probability (wins plus half the draws, over the order
/// count) is exactly one half.
pub proof fn lemma_self_comparison(a: Seq<u8>, orders: Seq<Seq<u8>>, n: int)
    requires
        0 <= n,
    ensures
        win_count(a, a, orders, n) == 0,
        draw_count(a, a, orders, n) == n,
    decreases n,
{
    if n > 0 {
        lemma_self_comparison(a, orders, n - 1);
    }
}

/// For any two cards the three outcomes partition the call orders: wins of
/// `a`, draws, and wins of `b` sum to the number of orders considered, and
/// draws are the same seen from either side.  Hence the two win
/// probabilities plus the draw probability sum to one, and swapping
/// reference and candidate reproduces consistent counts.
pub proof fn lemma_outcome_partition(a: Seq<u8>, b: Seq<u8>, orders: Seq<Seq<u8>>, n: int)
    requires
        0 <= n,
    ensures
        win_count(a, b, orders, n) + draw_count(a, b, orders, n) + win_count(b, a, orders, n) == n,
        draw_count(a, b, orders, n) == draw_count(b, a, orders, n),
        0 <= win_count(a, b, orders, n) <= n,
        0 <= draw_count(a, b, orders, n) <= n,
    decreases n,
{
    if n > 0 {
        lemma_outcome_partition(a, b, orders, n - 1);
    }
}

/// One candidate's full inner loop: compare the candidate's completion time
/// against the reference's precomputed one under every call order, counting
/// wins of the reference and draws.  `ref_times` must hold the reference
/// card's completion time per order, and `call_times` each order's table.
pub fn tally_for_card(
    card_a: &Vec<u8>,
    card_b: &Vec<u8>,
    orders: &Vec<Vec<u8>>,
    call_times: &Vec<Vec<u8>>,
    ref_times: &Vec<u8>,
    line_table: &Vec<Vec<u8>>,
) -> (t: Tally)
    requires
        is_perm8(card_a@),
        is_perm8(card_b@),
        orders@.len() < 0x1_0000_0000,
        call_times@.len() == orders@.len(),
        ref_times@.len() == orders@.len(),
        forall|j: int| 0 <= j < orders@.len() ==> is_perm8(#[trigger] orders@[j]@),
        forall|j: int| 0 <= j < orders@.len() ==> inverts(orders@[j]@, #[trigger] call_times@[j]@),
        forall|j: int|
            0 <= j < orders@.len() ==> #[trigger] ref_times@[j] as int == completion_vs_order(
                card_a@,
                orders@[j]@,
            ),
        line_table@.len() == 8,
        forall|k: int| 0 <= k < 8 ==> #[trigger] line_table@[k]@ == lines()[k],
    ensures
        t.wins as int == win_count(card_a@, card_b@, orders.deep_view(), orders@.len() as int),
        t.draws as int == draw_count(card_a@, card_b@, orders.deep_view(), orders@.len() as int),
        t.wins + t.draws <= orders@.len(),
{
    let ghost dv = orders.deep_view();
    proof {
        assert(dv.len() == orders@.len());
        assert forall|q: int| 0 <= q < orders@.len() implies dv[q] == orders@[q]@ by {
            assert(orders@[q].deep_view() =~= orders@[q]@);
        }
    }
    let mut wins: u32 = 0;
    let mut draws: u32 = 0;
    let mut j: usize = 0;
    let n = call_times.len();
    while j < n
        invariant
            j <= n,
            n == orders@.len() < 0x1_0000_0000,
            is_perm8(card_a@),
            is_perm8(card_b@),
            call_times@.len() == n,
            ref_times@.len() == n,
            forall|q: int| 0 <= q < n ==> is_perm8(#[trigger] orders@[q]@),
            forall|q: int| 0 <= q < n ==> inverts(orders@[q]@, #[trigger] call_times@[q]@),
            forall|q: int|
                0 <= q < n ==> #[trigger] ref_times@[q] as int == completion_vs_order(
                    card_a@,
                    orders@[q]@,
                ),
            line_table@.len() == 8,
            forall|k: int| 0 <= k < 8 ==> #[trigger] line_table@[k]@ == lines()[k],
            dv == orders.deep_view(),
            dv.len() == n,
            forall|q: int| 0 <= q < n ==> dv[q] == #[trigger] orders@[q]@,
            wins as int == win_count(card_a@, card_b@, dv, j as int),
            draws as int == draw_count(card_a@, card_b@, dv, j as int),
            wins + draws <= j,
        decreases n - j,
    {
        let ct = &call_times[j];
        let t_b = bingo_time_from_calltime(card_b, ct, line_table);
        let t_a = ref_times[j];
        proof {
            lemma_completion_from_order(card_b@, orders@[j as int]@, call_times@[j as int]@);
        }
        if t_a < t_b {
            wins += 1;
        } else if t_a == t_b {
            draws += 1;
        }
        j += 1;
    }
    Tally { wins, draws }
}

/// The reference card's completion time under every call order, computed
/// once and shared by all candidate comparisons.
pub fn completion_times_for(
    card: &Vec<u8>,
    orders: &Vec<Vec<u8>>,
    call_times: &Vec<Vec<u8>>,
    line_table: &Vec<Vec<u8>>,
) -> (r: Vec<u8>)
    requires
        is_perm8(card@),
        call_times@.len() == orders@.len(),
        forall|j: int| 0 <= j < orders@.len() ==> is_perm8(#[trigger] orders@[j]@),
        forall|j: int| 0 <= j < orders@.len() ==> inverts(orders@[j]@, #[trigger] call_times@[j]@),
        line_table@.len() == 8,
        forall|k: int| 0 <= k < 8 ==> #[trigger] line_table@[k]@ == lines()[k],
    ensures
        r@.len() == orders@.len(),
        forall|j: int|
            0 <= j < orders@.len() ==> #[trigger] r@[j] as int == completion_vs_order(
                card@,
                orders@[j]@,
            ),
{
    let mut r: Vec<u8> = Vec::new();
    let mut j: usize = 0;
    let n = call_times.len();
    while j < n
        invariant
            j <= n,
            n == orders@.len(),
            is_perm8(card@),
            call_times@.len() == n,
            forall|q: int| 0 <= q < n ==> is_perm8(#[trigger] orders@[q]@),
            forall|q: int| 0 <= q < n ==> inverts(orders@[q]@, #[trigger] call_times@[q]@),
            line_table@.len() == 8,
            forall|k: int| 0 <= k < 8 ==> #[trigger] line_table@[k]@ == lines()[k],
            r@.len() == j,
            forall|q: int|
                0 <= q < j ==> #[trigger] r@[q] as int == completion_vs_order(card@, orders@[q]@),
        decreases n - j,
    {
        let t = bingo_time_from_calltime(card, &call_times[j], line_table);
        proof {
            lemma_completion_from_order(card@, orders@[j as int]@, call_times@[j as int]@);
        }
        r.push(t);
        j += 1;
    }
    r
}

/// Relies on rayon: `par_iter` over a `Vec` traverses its elements,
/// `map` applies the given closure to each, and `collect_into_vec` (an
/// indexed collect) stores each result at its element's original index.
/// The closure only calls the verified `tally_for_card`, whose contract
/// pins every element of the result.
#[verifier::external_body]
fn par_tallies(
    card_a: &Vec<u8>,
    cards: &Vec<Vec<u8>>,
    orders: &Vec<Vec<u8>>,
    call_times: &Vec<Vec<u8>>,
    ref_times: &Vec<u8>,
    line_table: &Vec<Vec<u8>>,
) -> (r: Vec<Tally>)
    requires
        is_perm8(card_a@),
        orders@.len() < 0x1_0000_0000,
        call_times@.len() == orders@.len(),
        ref_times@.len() == orders@.len(),
        forall|i: int| 0 <= i < cards@.len() ==> is_perm8(#[trigger] cards@[i]@),
        forall|j: int| 0 <= j < orders@.len() ==> is_perm8(#[trigger] orders@[j]@),
        forall|j: int| 0 <= j < orders@.len() ==> inverts(orders@[j]@, #[trigger] call_times@[j]@),
        forall|j: int|
            0 <= j < orders@.len() ==> #[trigger] ref_times@[j] as int == completion_vs_order(
                card_a@,
                orders@[j]@,
            ),
        line_table@.len() == 8,
        forall|k: int| 0 <= k < 8 ==> #[trigger] line_table@[k]@ == lines()[k],
    ensures
        r@.len() == cards@.len(),
        forall|i: int|
            0 <= i < cards@.len() ==> (#[trigger] r@[i]).wins as int == win_count(
                card_a@,
                cards@[i]@,
                orders.deep_view(),
                orders@.len() as int,
            ),
        forall|i: int|
            0 <= i < cards@.len() ==> (#[trigger] r@[i]).draws as int == draw_count(
                card_a@,
                cards@[i]@,
                orders.deep_view(),
                orders@.len() as int,
            ),
        forall|i: int|
            0 <= i < cards@.len() ==> (#[trigger] r@[i]).wins + r@[i].draws <= orders@.len(),
{
    let mut out: Vec<Tally> = Vec::new();
    cards
        .par_iter()
        .map(|card_b| tally_for_card(card_a, card_b, orders, call_times, ref_times, line_table))
        .collect_into_vec(&mut out);
    out
}

/// Tally every candidate card against the reference over the given call
/// orders: derive each order's call-time table, precompute the reference's
/// completion times once, then run every candidate's inner loop as one
/// independent unit of a data-parallel map.  One tally per candidate, in
/// candidate order.
pub fn tally_all(card_a: &Vec<u8>, cards: &Vec<Vec<u8>>, orders: &Vec<Vec<u8>>) -> (r: Vec<Tally>)
    requires
        is_perm8(card_a@),
        orders@.len() < 0x1_0000_0000,
        forall|i: int| 0 <= i < cards@.len() ==> is_perm8(#[trigger] cards@[i]@),
        forall|j: int| 0 <= j < orders@.len() ==> is_perm8(#[trigger] orders@[j]@),
    ensures
        r@.len() == cards@.len(),
        forall|i: int|
            0 <= i < cards@.len() ==> (#[trigger] r@[i]).wins as int == win_count(
                card_a@,
                cards@[i]@,
                orders.deep_view(),
                orders@.len() as int,
            ),
        forall|i: int|
            0 <= i < cards@.len() ==> (#[trigger] r@[i]).draws as int == draw_count(
                card_a@,
                cards@[i]@,
                orders.deep_view(),
                orders@.len() as int,
            ),
        forall|i: int|
            0 <= i < cards@.len() ==> (#[trigger] r@[i]).wins + r@[i].draws <= orders@.len(),
{
    let line_table = make_lines();
    let mut call_times: Vec<Vec<u8>> = Vec::new();
    let mut j: usize = 0;
    let n = orders.len();
    while j < n
        invariant
            j <= n,
            orders@.len() == n,
            forall|q: int| 0 <= q < n ==> is_perm8(#[trigger] orders@[q]@),
            call_times@.len() == j,
            forall|q: int| 0 <= q < j ==> inverts(orders@[q]@, #[trigger] call_times@[q]@),
        decreases n - j,
    {
        let ct = call_times_for(&orders[j]);
        call_times.push(ct);
        j += 1;
    }
    let ref_times = completion_times_for(card_a, orders, &call_times, &line_table);
    par_tallies(card_a, cards, orders, &call_times, &ref_times, &line_table)
}

/// The full comparison: the enumerated candidate cards, in production
/// order, and for each its outcome tally against the reference card over
/// the full set of call orders (the same enumeration in its second role).
pub struct RaceResults {
    /// Every candidate card, one per enumerated permutation.
    pub cards: Vec<Vec<u8>>,
    /// Outcome counts of `cards[i]` against the reference, over all orders.
    pub tallies: Vec<Tally>,
}

/// The whole pipeline for a reference card: enumerate all 8! permutations,
/// derive every call-time table, precompute the reference's completion
/// times, then tally every candidate in parallel.  One tally per candidate,
/// in enumeration order; the candidate's win probability is
/// `(wins + draws / 2) / 40320`, left to the caller as exact counts.
pub fn run_pipeline(card_a: &Vec<u8>) -> (r: RaceResults)
    requires
        is_perm8(card_a@),
    ensures
        r.cards@.len() == 40320,
        r.cards@.len() == fact(8),
        r.tallies@.len() == r.cards@.len(),
        forall|i: int| 0 <= i < r.cards@.len() ==> is_perm8(#[trigger] r.cards@[i]@),
        forall|t1: int, t2: int|
            #![trigger r.cards@[t1], r.cards@[t2]]
            0 <= t1 < t2 < r.cards@.len() ==> r.cards@[t1]@ != r.cards@[t2]@,
        forall|s: Seq<u8>|
            #[trigger] is_perm8(s) ==> exists|t: int| 0 <= t < r.cards@.len() && r.cards@[t]@ == s,
        forall|i: int|
            0 <= i < r.cards@.len() ==> (#[trigger] r.tallies@[i]).wins as int == win_count(
                card_a@,
                r.cards@[i]@,
                r.cards.deep_view(),
                r.cards@.len() as int,
            ),
        forall|i: int|
            0 <= i < r.cards@.len() ==> (#[trigger] r.tallies@[i]).draws as int == draw_count(
                card_a@,
                r.cards@[i]@,
                r.cards.deep_view(),
                r.cards@.len() as int,
            ),
        forall|i: int|
            0 <= i < r.cards@.len() ==> (#[trigger] r.tallies@[i]).wins + r.tallies@[i].draws
                <= r.cards@.len(),
{
    let cards = generate_permutations();
    let tallies = tally_all(card_a, &cards, &cards);
    RaceResults { cards, tallies }
}

} // verus!
