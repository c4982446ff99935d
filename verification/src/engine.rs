//! The completion-time engine: call-time tables derived from call orders,
//! the fixed table of winning lines, and the turn at which a card first
//! completes a line under a given call order.

use crate::is_perm8;
use vstd::prelude::*;

verus! {

/// A call-time table: entry `n`, for `n` in 1..=8, is the zero-based turn at
/// which number `n` is called.  Entry 0 is padding so that numbers index the
/// table directly.  Every recorded turn is a valid position (below 8).
pub open spec fn is_call_times(ct: Seq<u8>) -> bool {
    &&& ct.len() == 9
    &&& forall|n: int| 0 <= n < 9 ==> #[trigger] ct[n] < 8
}

/// `ct` is the call-time table of call order `order`: the inverse
/// permutation, so the number called at turn `i` has call time `i`.
pub open spec fn inverts(order: Seq<u8>, ct: Seq<u8>) -> bool {
    &&& is_call_times(ct)
    &&& forall|i: int| 0 <= i < 8 ==> ct[#[trigger] order[i] as int] == i
}

/// The call-time table that a call order induces, as a function of the order
/// alone: number `n` is called at the position where it stands in `order`.
pub open spec fn table_of(order: Seq<u8>) -> Seq<u8> {
    Seq::new(
        9,
        |n: int|
            if 1 <= n <= 8 {
                order.index_of(n as u8) as u8
            } else {
                0u8
            },
    )
}

/// The fixed winning lines: each is a set of board positions (0-indexed)
/// that completes a card once every position in it has been called.
pub open spec fn lines() -> Seq<Seq<u8>> {
    seq![
        seq![0u8, 1u8, 2u8],
        seq![3u8, 4u8],
        seq![5u8, 6u8, 7u8],
        seq![0u8, 3u8, 5u8],
        seq![1u8, 6u8],
        seq![2u8, 4u8, 7u8],
        seq![0u8, 7u8],
        seq![2u8, 5u8],
    ]
}

/// Every position named by `line` exists on an 8-cell card.
pub open spec fn line_ok(line: Seq<u8>) -> bool {
    forall|j: int| 0 <= j < line.len() ==> #[trigger] line[j] < 8
}

/// The turn at which `line` is fully covered on `card`: the latest call time
/// among the numbers occupying the line's positions (0 for an empty line).
pub open spec fn line_time(card: Seq<u8>, ct: Seq<u8>, line: Seq<u8>) -> int
    decreases line.len(),
{
    if line.len() == 0 {
        0
    } else {
        let rest = line_time(card, ct, line.drop_last());
        let last = ct[card[line.last() as int] as int] as int;
        if last > rest {
            last
        } else {
            rest
        }
    }
}

/// The best (earliest) completion over the first `k` winning lines, with
/// an unreachable sentinel before any line is considered.
pub open spec fn best_upto(card: Seq<u8>, ct: Seq<u8>, k: int) -> int
    decreases k,
{
    if k <= 0 {
        255
    } else {
        let prev = best_upto(card, ct, k - 1);
        let cur = line_time(card, ct, lines()[k - 1]);
        if cur < prev {
            cur
        } else {
            prev
        }
    }
}

/// The completion time of `card` under call-time table `ct`: the earliest
/// turn at which some winning line is fully covered.
pub open spec fn completion_time(card: Seq<u8>, ct: Seq<u8>) -> int {
    best_upto(card, ct, 8)
}

/// The completion time of `card` when the numbers are announced in `order`.
pub open spec fn completion_vs_order(card: Seq<u8>, order: Seq<u8>) -> int {
    completion_time(card, table_of(order))
}

/// Every winning line names only positions on the card, holds 2 or 3 of
/// them, and the table holds exactly 8 lines.
pub proof fn lemma_lines_ok()
    ensures
        lines().len() == 8,
        forall|k: int| 0 <= k < 8 ==> line_ok(#[trigger] lines()[k]),
        forall|k: int| 0 <= k < 8 ==> 2 <= #[trigger] lines()[k].len() <= 3,
{
    assert forall|k: int| 0 <= k < 8 implies line_ok(#[trigger] lines()[k]) && 2 <= lines()[k].len()
        <= 3 by {
        if k == 0 {
            assert(line_ok(lines()[0])) by {
                assert forall|j: int| 0 <= j < lines()[0].len() implies #[trigger] lines()[0][j]
                    < 8 by {
                    assert(lines()[0] == seq![0u8, 1u8, 2u8]);
                }
            }
        } else if k == 1 {
            assert(line_ok(lines()[1])) by {
                assert forall|j: int| 0 <= j < lines()[1].len() implies #[trigger] lines()[1][j]
                    < 8 by {
                    assert(lines()[1] == seq![3u8, 4u8]);
                }
            }
        } else if k == 2 {
            assert(line_ok(lines()[2])) by {
                assert forall|j: int| 0 <= j < lines()[2].len() implies #[trigger] lines()[2][j]
                    < 8 by {
                    assert(lines()[2] == seq![5u8, 6u8, 7u8]);
                }
            }
        } else if k == 3 {
            assert(line_ok(lines()[3])) by {
                assert forall|j: int| 0 <= j < lines()[3].len() implies #[trigger] lines()[3][j]
                    < 8 by {
                    assert(lines()[3] == seq![0u8, 3u8, 5u8]);
                }
            }
        } else if k == 4 {
            assert(line_ok(lines()[4])) by {
                assert forall|j: int| 0 <= j < lines()[4].len() implies #[trigger] lines()[4][j]
                    < 8 by {
                    assert(lines()[4] == seq![1u8, 6u8]);
                }
            }
        } else if k == 5 {
            assert(line_ok(lines()[5])) by {
                assert forall|j: int| 0 <= j < lines()[5].len() implies #[trigger] lines()[5][j]
                    < 8 by {
                    assert(lines()[5] == seq![2u8, 4u8, 7u8]);
                }
            }
        } else if k == 6 {
            assert(line_ok(lines()[6])) by {
                assert forall|j: int| 0 <= j < lines()[6].len() implies #[trigger] lines()[6][j]
                    < 8 by {
                    assert(lines()[6] == seq![0u8, 7u8]);
                }
            }
        } else {
            assert(line_ok(lines()[7])) by {
                assert forall|j: int| 0 <= j < lines()[7].len() implies #[trigger] lines()[7][j]
                    < 8 by {
                    assert(lines()[7] == seq![2u8, 5u8]);
                }
            }
        }
    }
}

/// A line's cover time is a valid turn: at least 0, and below 8 whenever the
/// line is non-empty and the table holds valid turns.
pub proof fn lemma_line_time_bounds(card: Seq<u8>, ct: Seq<u8>, line: Seq<u8>)
    requires
        is_perm8(card),
        is_call_times(ct),
        line_ok(line),
    ensures
        0 <= line_time(card, ct, line),
        line.len() > 0 ==> line_time(card, ct, line) < 8,
    decreases line.len(),
{
    if line.len() > 0 {
        assert(line_ok(line.drop_last())) by {
            assert(forall|j: int|
                0 <= j < line.drop_last().len() ==> #[trigger] line.drop_last()[j] == line[j]);
        }
        lemma_line_time_bounds(card, ct, line.drop_last());
        assert(line[line.len() - 1] < 8);
        assert(1 <= card[line.last() as int] <= 8);
    }
}

/// A call order's induced table really is its inverse permutation.
pub proof fn lemma_table_of_inverts(order: Seq<u8>)
    requires
        is_perm8(order),
    ensures
        inverts(order, table_of(order)),
{
    let t = table_of(order);
    assert forall|n: int| 0 <= n < 9 implies #[trigger] t[n] < 8 by {
        if 1 <= n <= 8 {
            assert(order.contains(n as u8));
            let i = choose|i: int| 0 <= i < order.len() && order[i] == n as u8;
            assert(0 <= order.index_of(n as u8) < 8);
        }
    }
    assert forall|i: int| 0 <= i < 8 implies t[#[trigger] order[i] as int] == i by {
        let v = order[i];
        assert(order.contains(v));
        let j = order.index_of(v);
        assert(0 <= j < 8 && order[j] == v);
        assert(j == i);
    }
}

/// Any table that inverts a call order agrees with the induced one on every
/// number actually in play.
pub proof fn lemma_inverse_agrees(order: Seq<u8>, ct: Seq<u8>)
    requires
        is_perm8(order),
        inverts(order, ct),
    ensures
        forall|n: int| 1 <= n <= 8 ==> ct[n] == #[trigger] table_of(order)[n],
{
    lemma_table_of_inverts(order);
    assert forall|n: int| 1 <= n <= 8 implies ct[n] == #[trigger] table_of(order)[n] by {
        assert(order.contains(n as u8));
        let i = choose|i: int| 0 <= i < order.len() && order[i] == n as u8;
        assert(ct[order[i] as int] == i);
        assert(table_of(order)[order[i] as int] == i);
    }
}

/// A line's cover time reads the table only at the numbers on the card, so
/// two tables that agree there give the same cover time.
proof fn lemma_line_time_agrees(card: Seq<u8>, ct1: Seq<u8>, ct2: Seq<u8>, line: Seq<u8>)
    requires
        is_perm8(card),
        line_ok(line),
        forall|n: int| 1 <= n <= 8 ==> ct1[n] == #[trigger] ct2[n],
    ensures
        line_time(card, ct1, line) == line_time(card, ct2, line),
    decreases line.len(),
{
    if line.len() > 0 {
        assert(line_ok(line.drop_last())) by {
            assert(forall|j: int|
                0 <= j < line.drop_last().len() ==> #[trigger] line.drop_last()[j] == line[j]);
        }
        lemma_line_time_agrees(card, ct1, ct2, line.drop_last());
        assert(1 <= card[line.last() as int] <= 8);
    }
}

/// The completion time computed from any inverse table of a call order is
/// the completion time the order itself determines.
pub proof fn lemma_completion_from_order(card: Seq<u8>, order: Seq<u8>, ct: Seq<u8>)
    requires
        is_perm8(card),
        is_perm8(order),
        inverts(order, ct),
    ensures
        completion_time(card, ct) == completion_vs_order(card, order),
{
    lemma_inverse_agrees(order, ct);
    lemma_lines_ok();
    assert forall|k: int| 0 <= k < 8 implies line_time(card, ct, #[trigger] lines()[k])
        == line_time(card, table_of(order), lines()[k]) by {
        lemma_line_time_agrees(card, ct, table_of(order), lines()[k]);
    }
    assert forall|k: int| 0 <= k <= 8 implies best_upto(card, ct, k) == #[trigger] best_upto(
        card,
        table_of(order),
        k,
    ) by {
        lemma_best_upto_agrees(card, ct, table_of(order), k);
    }
}

/// Two tables with equal per-line cover times give equal running minima.
proof fn lemma_best_upto_agrees(card: Seq<u8>, ct1: Seq<u8>, ct2: Seq<u8>, k: int)
    requires
        forall|k: int|
            0 <= k < 8 ==> line_time(card, ct1, #[trigger] lines()[k]) == line_time(
                card,
                ct2,
                lines()[k],
            ),
        k <= 8,
    ensures
        best_upto(card, ct1, k) == best_upto(card, ct2, k),
    decreases k,
{
    if k > 0 {
        lemma_best_upto_agrees(card, ct1, ct2, k - 1);
    }
}

/// The completion time is the minimum of the 8 per-line cover times: no line
/// completes earlier, and some line completes exactly then.  It is always a
/// valid turn.  Since a minimum is insensitive to the order in which the
/// candidates are inspected, any order of line evaluation yields this value.
pub proof fn lemma_completion_is_min(card: Seq<u8>, ct: Seq<u8>)
    requires
        is_perm8(card),
        is_call_times(ct),
    ensures
        0 <= completion_time(card, ct) < 8,
        forall|k: int|
            0 <= k < 8 ==> completion_time(card, ct) <= line_time(card, ct, #[trigger] lines()[k]),
        exists|k: int|
            0 <= k < 8 && completion_time(card, ct) == line_time(card, ct, #[trigger] lines()[k]),
{
    lemma_lines_ok();
    assert forall|k: int| 0 <= k < 8 implies 0 <= line_time(card, ct, #[trigger] lines()[k])
        < 8 by {
        lemma_line_time_bounds(card, ct, lines()[k]);
    }
    assert forall|k: int, j: int|
        #![trigger best_upto(card, ct, k), best_upto(card, ct, j)]
        0 <= j <= k <= 8 implies best_upto(card, ct, k) <= best_upto(card, ct, j) by {
        lemma_best_upto_monotone(card, ct, j, k);
    }
    lemma_best_upto_hits(card, ct, 8);
    assert(best_upto(card, ct, 1) <= line_time(card, ct, lines()[0]));
    assert forall|k: int| 0 <= k < 8 implies completion_time(card, ct) <= line_time(
        card,
        ct,
        #[trigger] lines()[k],
    ) by {
        assert(best_upto(card, ct, 8) <= best_upto(card, ct, k + 1));
    }
}

/// The running minimum only decreases as more lines are inspected.
proof fn lemma_best_upto_monotone(card: Seq<u8>, ct: Seq<u8>, j: int, k: int)
    requires
        0 <= j <= k,
    ensures
        best_upto(card, ct, k) <= best_upto(card, ct, j),
    decreases k - j,
{
    if j < k {
        lemma_best_upto_monotone(card, ct, j, k - 1);
    }
}

/// A non-trivial running minimum is attained by one of the inspected lines.
proof fn lemma_best_upto_hits(card: Seq<u8>, ct: Seq<u8>, k: int)
    requires
        1 <= k <= 8,
        forall|t: int| 0 <= t < 8 ==> line_time(card, ct, #[trigger] lines()[t]) < 255,
    ensures
        exists|t: int|
            0 <= t < k && best_upto(card, ct, k) == line_time(card, ct, #[trigger] lines()[t]),
    decreases k,
{
    if k == 1 {
        assert(best_upto(card, ct, 0) == 255);
        assert(best_upto(card, ct, 1) == line_time(card, ct, lines()[0]));
    } else {
        lemma_best_upto_hits(card, ct, k - 1);
        if line_time(card, ct, lines()[k - 1]) < best_upto(card, ct, k - 1) {
            assert(best_upto(card, ct, k) == line_time(card, ct, lines()[k - 1]));
        }
    }
}

/// `ord` is an evaluation order over the winning lines: every line index
/// 0..8 exactly once.
pub open spec fn is_line_order(ord: Seq<int>) -> bool {
    &&& ord.len() == 8
    &&& forall|j: int| 0 <= j < 8 ==> 0 <= #[trigger] ord[j] < 8
    &&& forall|k: int| 0 <= k < 8 ==> #[trigger] ord.contains(k)
}

/// The running minimum of the per-line cover times, the lines inspected in
/// the order given by `ord` instead of table order.
pub open spec fn best_in_order(card: Seq<u8>, ct: Seq<u8>, ord: Seq<int>) -> int
    decreases ord.len(),
{
    if ord.len() == 0 {
        255
    } else {
        let prev = best_in_order(card, ct, ord.drop_last());
        let cur = line_time(card, ct, lines()[ord.last()]);
        if cur < prev {
            cur
        } else {
            prev
        }
    }
}

/// The running minimum never exceeds any inspected line's cover time.
proof fn lemma_best_in_order_le(card: Seq<u8>, ct: Seq<u8>, ord: Seq<int>, j: int)
    requires
        0 <= j < ord.len(),
    ensures
        best_in_order(card, ct, ord) <= line_time(card, ct, lines()[ord[j]]),
    decreases ord.len(),
{
    if j < ord.len() - 1 {
        assert(ord.drop_last()[j] == ord[j]);
        lemma_best_in_order_le(card, ct, ord.drop_last(), j);
    }
}

/// A non-trivial running minimum is attained by one of the inspected lines.
proof fn lemma_best_in_order_hits(card: Seq<u8>, ct: Seq<u8>, ord: Seq<int>)
    requires
        ord.len() > 0,
        forall|j: int| 0 <= j < ord.len() ==> 0 <= #[trigger] ord[j] < 8,
        forall|t: int| 0 <= t < 8 ==> line_time(card, ct, #[trigger] lines()[t]) < 255,
    ensures
        exists|j: int|
            0 <= j < ord.len() && best_in_order(card, ct, ord) == line_time(
                card,
                ct,
                lines()[#[trigger] ord[j]],
            ),
    decreases ord.len(),
{
    let last = ord.len() - 1;
    if ord.len() == 1 {
        assert(best_in_order(card, ct, ord.drop_last()) == 255);
        assert(best_in_order(card, ct, ord) == line_time(card, ct, lines()[ord[last]]));
    } else {
        assert(forall|j: int|
            0 <= j < ord.drop_last().len() ==> 0 <= #[trigger] ord.drop_last()[j] < 8);
        lemma_best_in_order_hits(card, ct, ord.drop_last());
        let w = choose|j: int|
            0 <= j < ord.drop_last().len() && best_in_order(card, ct, ord.drop_last())
                == line_time(card, ct, lines()[ord.drop_last()[j]]);
        if line_time(card, ct, lines()[ord.last()]) < best_in_order(card, ct, ord.drop_last()) {
            assert(best_in_order(card, ct, ord) == line_time(card, ct, lines()[ord[last]]));
        } else {
            assert(ord.drop_last()[w] == ord[w]);
            assert(best_in_order(card, ct, ord) == line_time(card, ct, lines()[ord[w]]));
        }
    }
}

/// The completion time does not depend on the order in which the winning
/// lines are inspected: folding the minimum over the lines in any order
/// yields the same value as table order.
pub proof fn lemma_completion_order_independent(card: Seq<u8>, ct: Seq<u8>, ord: Seq<int>)
    requires
        is_perm8(card),
        is_call_times(ct),
        is_line_order(ord),
    ensures
        best_in_order(card, ct, ord) == completion_time(card, ct),
{
    lemma_lines_ok();
    lemma_completion_is_min(card, ct);
    assert forall|t: int| 0 <= t < 8 implies line_time(card, ct, #[trigger] lines()[t]) < 255 by {
        lemma_line_time_bounds(card, ct, lines()[t]);
    }
    lemma_best_in_order_hits(card, ct, ord);
    let j0 = choose|j: int|
        0 <= j < ord.len() && best_in_order(card, ct, ord) == line_time(
            card,
            ct,
            lines()[#[trigger] ord[j]],
        );
    assert(completion_time(card, ct) <= line_time(card, ct, lines()[ord[j0]]));
    let k0 = choose|k: int|
        0 <= k < 8 && completion_time(card, ct) == line_time(card, ct, #[trigger] lines()[k]);
    assert(ord.contains(k0));
    let jk = choose|j: int| 0 <= j < ord.len() && ord[j] == k0;
    lemma_best_in_order_le(card, ct, ord, jk);
}

/// The winning-line table as runtime data, matching `lines()` cell for cell.
pub fn make_lines() -> (r: Vec<Vec<u8>>)
    ensures
        r@.len() == 8,
        forall|k: int| 0 <= k < 8 ==> #[trigger] r@[k]@ == lines()[k],
{
    let mut r: Vec<Vec<u8>> = Vec::new();
    let mut l: Vec<u8> = Vec::new();
    l.push(0);
    l.push(1);
    l.push(2);
    assert(l@ =~= lines()[0]);
    r.push(l);
    let mut l: Vec<u8> = Vec::new();
    l.push(3);
    l.push(4);
    assert(l@ =~= lines()[1]);
    r.push(l);
    let mut l: Vec<u8> = Vec::new();
    l.push(5);
    l.push(6);
    l.push(7);
    assert(l@ =~= lines()[2]);
    r.push(l);
    let mut l: Vec<u8> = Vec::new();
    l.push(0);
    l.push(3);
    l.push(5);
    assert(l@ =~= lines()[3]);
    r.push(l);
    let mut l: Vec<u8> = Vec::new();
    l.push(1);
    l.push(6);
    assert(l@ =~= lines()[4]);
    r.push(l);
    let mut l: Vec<u8> = Vec::new();
    l.push(2);
    l.push(4);
    l.push(7);
    assert(l@ =~= lines()[5]);
    r.push(l);
    let mut l: Vec<u8> = Vec::new();
    l.push(0);
    l.push(7);
    assert(l@ =~= lines()[6]);
    r.push(l);
    let mut l: Vec<u8> = Vec::new();
    l.push(2);
    l.push(5);
    assert(l@ =~= lines()[7]);
    r.push(l);
    r
}

/// The call-time table of a call order, built in one pass: the number
/// announced at turn `i` gets call time `i`.
pub fn call_times_for(order: &Vec<u8>) -> (ct: Vec<u8>)
    requires
        is_perm8(order@),
    ensures
        inverts(order@, ct@),
{
    let mut ct: Vec<u8> = Vec::new();
    let mut i: usize = 0;
    while i < 9
        invariant
            i <= 9,
            ct@.len() == i,
            forall|n: int| 0 <= n < i ==> #[trigger] ct@[n] == 0,
        decreases 9 - i,
    {
        ct.push(0);
        i += 1;
    }
    let mut i: usize = 0;
    while i < 8
        invariant
            i <= 8,
            is_perm8(order@),
            ct@.len() == 9,
            forall|n: int| 0 <= n < 9 ==> #[trigger] ct@[n] < 8,
            forall|t: int| 0 <= t < i ==> ct@[#[trigger] order@[t] as int] == t,
        decreases 8 - i,
    {
        let num = order[i];
        ct[num as usize] = i as u8;
        i += 1;
    }
    ct
}

/// The turn at which `card` first completes a winning line, given the
/// call-time table of the order in play: the minimum over the line table of
/// each line's latest call time.
pub fn bingo_time_from_calltime(card: &Vec<u8>, call_time: &Vec<u8>, line_table: &Vec<Vec<u8>>) -> (
    t: u8)
    requires
        is_perm8(card@),
        is_call_times(call_time@),
        line_table@.len() == 8,
        forall|k: int| 0 <= k < 8 ==> #[trigger] line_table@[k]@ == lines()[k],
    ensures
        t as int == completion_time(card@, call_time@),
        t < 8,
{
    proof {
        lemma_lines_ok();
    }
    let mut best: u8 = u8::MAX;
    let mut k: usize = 0;
    while k < 8
        invariant
            k <= 8,
            is_perm8(card@),
            is_call_times(call_time@),
            line_table@.len() == 8,
            forall|q: int| 0 <= q < 8 ==> #[trigger] line_table@[q]@ == lines()[q],
            forall|q: int| 0 <= q < 8 ==> line_ok(#[trigger] lines()[q]),
            best as int == best_upto(card@, call_time@, k as int),
            k >= 1 ==> best < 8,
        decreases 8 - k,
    {
        let line = &line_table[k];
        let mut t_line: u8 = 0;
        let mut j: usize = 0;
        proof {
            assert(line@.subrange(0, 0) =~= Seq::<u8>::empty());
        }
        while j < line.len()
            invariant
                j <= line@.len(),
                is_perm8(card@),
                is_call_times(call_time@),
                line@ == lines()[k as int],
                k < 8,
                line_ok(line@),
                t_line as int == line_time(card@, call_time@, line@.subrange(0, j as int)),
                t_line < 8 || t_line == 0,
            decreases line@.len() - j,
        {
            let pos = line[j];
            let num = card[pos as usize];
            let t = call_time[num as usize];
            proof {
                let pref = line@.subrange(0, j + 1);
                assert(pref.drop_last() =~= line@.subrange(0, j as int));
                assert(pref.last() == line@[j as int]);
            }
            if t > t_line {
                t_line = t;
            }
            j += 1;
        }
        proof {
            assert(line@.subrange(0, line@.len() as int) =~= line@);
            lemma_line_time_bounds(card@, call_time@, line@);
        }
        if t_line < best {
            best = t_line;
        }
        k += 1;
    }
    best
}

} // verus!
