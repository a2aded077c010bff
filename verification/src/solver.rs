use vstd::prelude::*;
use crate::board::{
    Board, EMPTY, digit_in_box, digit_in_col, digit_in_row, lemma_index_split,
};

verus! {

/// Every cell of the 81-cell grid sequence is filled.
pub open spec fn full(s: Seq<u8>) -> bool {
    forall|i: int| 0 <= i < 81 ==> s[i] != 0
}

/// Every cell filled in `start` holds the same digit in `s`.
pub open spec fn extends(start: Seq<u8>, s: Seq<u8>) -> bool {
    forall|i: int| 0 <= i < 81 && start[i] != 0 ==> #[trigger] s[i] == start[i]
}

/// Cells i and j lie in one row, one column, or one 3-by-3 box.
pub open spec fn same_unit(i: int, j: int) -> bool {
    i / 9 == j / 9 || i % 9 == j % 9 || ((i / 9) / 3 == (j / 9) / 3 && (i % 9) / 3 == (j % 9) / 3)
}

/// No two equal digits share a unit in `s`, except where both cells were
/// already filled in `start`: the search never creates a conflict.
pub open spec fn no_new_conflict(start: Seq<u8>, s: Seq<u8>) -> bool {
    forall|i: int, j: int|
        #![trigger s[i], s[j]]
        0 <= i < 81 && 0 <= j < 81 && i != j && same_unit(i, j) && s[i] == s[j] && s[i] != 0
            ==> start[i] != 0 && start[j] != 0
}

/// What holds of every node on the search stack: a well-formed grid that
/// extends the start without new conflicts, whose cells before the
/// cursor are all filled.
spec fn node_ok(start: Seq<u8>, node: (usize, Board)) -> bool {
    &&& node.1.wf()
    &&& extends(start, node.1@)
    &&& no_new_conflict(start, node.1@)
    &&& node.0 <= 81
    &&& forall|j: int| 0 <= j < node.0 ==> node.1@[j] != 0
}

/// Assigning a candidate digit to an empty cell keeps the grid an
/// extension of the start and creates no conflict.
proof fn lemma_assign_keeps_ok(start: Seq<u8>, g: Seq<u8>, i: int, d: u8)
    requires
        start.len() == 81,
        g.len() == 81,
        extends(start, g),
        no_new_conflict(start, g),
        0 <= i < 81,
        g[i] == 0,
        1 <= d <= 9,
        !digit_in_row(g, i / 9, d),
        !digit_in_col(g, i % 9, d),
        !digit_in_box(g, i / 9, i % 9, d),
    ensures
        extends(start, g.update(i, d)),
        no_new_conflict(start, g.update(i, d)),
{
    let g2 = g.update(i, d);
    assert(start[i] == 0) by {
        if start[i] != 0 {
            assert(g[i] == start[i]);
        }
    }
    lemma_index_split(i);
    // No cell sharing a unit with i holds d in g.
    assert forall|l: int| 0 <= l < 81 && l != i && same_unit(i, l) implies g[l] != d by {
        lemma_index_split(l);
        if g[l] == d {
            if l / 9 == i / 9 {
                assert(g[(i / 9) * 9 + (l % 9)] == d);
                assert(digit_in_row(g, i / 9, d));
            } else if l % 9 == i % 9 {
                assert(g[(l / 9) * 9 + (i % 9)] == d);
                assert(digit_in_col(g, i % 9, d));
            } else {
                let a = (l / 9) % 3;
                let b = (l % 9) % 3;
                vstd::arithmetic::div_mod::lemma_fundamental_div_mod(l / 9, 3);
                vstd::arithmetic::div_mod::lemma_mod_bound(l / 9, 3);
                vstd::arithmetic::div_mod::lemma_fundamental_div_mod(l % 9, 3);
                vstd::arithmetic::div_mod::lemma_mod_bound(l % 9, 3);
                assert(l / 9 == 3 * ((l / 9) / 3) + a);
                assert(l % 9 == 3 * ((l % 9) / 3) + b);
                assert((3 * ((i / 9) / 3) + a) * 9 + (3 * ((i % 9) / 3) + b) == l);
                assert(g[(3 * ((i / 9) / 3) + a) * 9 + (3 * ((i % 9) / 3) + b)] == d);
                assert(digit_in_box(g, i / 9, i % 9, d));
            }
        }
    }
    assert forall|k: int, l: int|
        #![trigger g2[k], g2[l]]
        0 <= k < 81 && 0 <= l < 81 && k != l && same_unit(k, l) && g2[k] == g2[l] && g2[k]
            != 0 implies start[k] != 0 && start[l] != 0 by {
        if k != i && l != i {
            assert(g[k] == g2[k] && g[l] == g2[l]);
        } else if k == i {
            assert(same_unit(i, l));
            assert(g[l] == g2[l]);
            assert(g[l] == d);
        } else {
            assert(same_unit(i, k)) by {
                assert(same_unit(k, l));
            }
            assert(g[k] == g2[k]);
            assert(g[k] == d);
        }
    }
}

/// S is a proper solution of `start`: 81 digits 1..=9 that keep every
/// given cell of `start` and repeat no digit within a row, a column, or
/// a box.
pub open spec fn proper_solution(start: Seq<u8>, s: Seq<u8>) -> bool {
    &&& s.len() == 81
    &&& forall|i: int| 0 <= i < 81 ==> 1 <= #[trigger] s[i] <= 9
    &&& extends(start, s)
    &&& forall|i: int, j: int|
        #![trigger s[i], s[j]]
        0 <= i < 81 && 0 <= j < 81 && i != j && same_unit(i, j) ==> s[i] != s[j]
}

/// The digit a proper solution puts into an empty cell of g is one of
/// the cell's candidates: it occurs nowhere in the cell's row, column,
/// or box of g.
proof fn lemma_solution_digit_free(g: Seq<u8>, s: Seq<u8>, i: int)
    requires
        g.len() == 81,
        s.len() == 81,
        extends(g, s),
        forall|k: int, l: int|
            #![trigger s[k], s[l]]
            0 <= k < 81 && 0 <= l < 81 && k != l && same_unit(k, l) ==> s[k] != s[l],
        0 <= i < 81,
        g[i] == 0,
        1 <= s[i] <= 9,
    ensures
        !digit_in_row(g, i / 9, s[i]),
        !digit_in_col(g, i % 9, s[i]),
        !digit_in_box(g, i / 9, i % 9, s[i]),
{
    let d = s[i];
    lemma_index_split(i);
    if digit_in_row(g, i / 9, d) {
        let x0 = choose|x: int| 0 <= x < 9 && #[trigger] g[(i / 9) * 9 + x] == d;
        let l = (i / 9) * 9 + x0;
        lemma_index_split(l);
        assert(s[l] == d);
        assert(l != i);
        assert(same_unit(l, i));
        assert(false);
    }
    if digit_in_col(g, i % 9, d) {
        let y0 = choose|y: int| 0 <= y < 9 && #[trigger] g[y * 9 + (i % 9)] == d;
        let l = y0 * 9 + (i % 9);
        lemma_index_split(l);
        assert(s[l] == d);
        assert(l != i);
        assert(same_unit(l, i));
        assert(false);
    }
    if digit_in_box(g, i / 9, i % 9, d) {
        let (a, b) = choose|a: int, b: int|
            0 <= a < 3 && 0 <= b < 3 && #[trigger] g[(3 * ((i / 9) / 3) + a) * 9 + (3 * ((i % 9)
                / 3) + b)] == d;
        let l = (3 * ((i / 9) / 3) + a) * 9 + (3 * ((i % 9) / 3) + b);
        lemma_index_split(l);
        vstd::arithmetic::div_mod::lemma_fundamental_div_mod(l / 9, 3);
        vstd::arithmetic::div_mod::lemma_mod_bound(l / 9, 3);
        vstd::arithmetic::div_mod::lemma_fundamental_div_mod(l % 9, 3);
        vstd::arithmetic::div_mod::lemma_mod_bound(l % 9, 3);
        assert(l / 9 == 3 * ((i / 9) / 3) + a);
        assert(l % 9 == 3 * ((i % 9) / 3) + b);
        vstd::arithmetic::div_mod::lemma_fundamental_div_mod(i / 9, 3);
        vstd::arithmetic::div_mod::lemma_mod_bound(i / 9, 3);
        vstd::arithmetic::div_mod::lemma_fundamental_div_mod(i % 9, 3);
        vstd::arithmetic::div_mod::lemma_mod_bound(i % 9, 3);
        assert((l / 9) / 3 == (i / 9) / 3);
        assert((l % 9) / 3 == (i % 9) / 3);
        assert(same_unit(l, i));
        assert(s[l] == d);
        assert(l != i);
        assert(false);
    }
}

/// The filled cells of `start` that share a unit hold distinct digits:
/// the givens themselves are free of conflicts.
pub open spec fn no_given_conflict(start: Seq<u8>) -> bool {
    forall|i: int, j: int|
        #![trigger start[i], start[j]]
        0 <= i < 81 && 0 <= j < 81 && i != j && same_unit(i, j) && start[i] != 0 && start[j] != 0
            ==> start[i] != start[j]
}

/// A full grid the search reaches from a conflict-free start is a valid
/// Sudoku solution: no digit repeats in any row, any column, or any box.
/// So whenever `solve` answers on such a start, the answer is a genuine
/// completion of it.
pub proof fn lemma_clean_start_valid(start: Seq<u8>, g: Seq<u8>)
    requires
        start.len() == 81,
        g.len() == 81,
        no_given_conflict(start),
        full(g),
        extends(start, g),
        no_new_conflict(start, g),
    ensures
        forall|i: int, j: int|
            #![trigger g[i], g[j]]
            0 <= i < 81 && 0 <= j < 81 && i != j && same_unit(i, j) ==> g[i] != g[j],
{
    assert forall|i: int, j: int|
        #![trigger g[i], g[j]]
        0 <= i < 81 && 0 <= j < 81 && i != j && same_unit(i, j) implies g[i] != g[j] by {
        if g[i] == g[j] {
            assert(g[i] != 0);
            assert(start[i] != 0 && start[j] != 0);
            assert(g[i] == start[i] && g[j] == start[j]);
        }
    }
}

/// A complete grid reached from an all-blank start is a valid Sudoku
/// solution: no digit repeats in any row, any column, or any box.
pub proof fn lemma_blank_start_valid(start: Seq<u8>, g: Seq<u8>)
    requires
        start.len() == 81,
        g.len() == 81,
        forall|i: int| 0 <= i < 81 ==> start[i] == 0,
        full(g),
        no_new_conflict(start, g),
    ensures
        forall|i: int, j: int|
            #![trigger g[i], g[j]]
            0 <= i < 81 && 0 <= j < 81 && i != j && same_unit(i, j) ==> g[i] != g[j],
{
    lemma_clean_start_valid(start, g);
}

/// The number of empty cells in a grid sequence.
spec fn blanks(s: Seq<u8>) -> nat
    decreases s.len(),
{
    if s.len() == 0 {
        0
    } else {
        blanks(s.drop_last()) + (if s.last() == 0 {
            1nat
        } else {
            0nat
        })
    }
}

/// Powers of ten, the weight scale of the termination measure.
spec fn pow10(e: nat) -> nat
    decreases e,
{
    if e == 0 {
        1
    } else {
        10 * pow10((e - 1) as nat)
    }
}

/// The termination measure of the search: each stack node weighs ten to
/// the number of its empty cells, so a popped node outweighs the at most
/// nine one-cell-fuller branches pushed in its place.
spec fn measure(st: Seq<(usize, Board)>) -> nat
    decreases st.len(),
{
    if st.len() == 0 {
        0
    } else {
        measure(st.drop_last()) + pow10(blanks(st.last().1@))
    }
}

proof fn lemma_pow10_pos(e: nat)
    ensures
        pow10(e) >= 1,
    decreases e,
{
    if e > 0 {
        lemma_pow10_pos((e - 1) as nat);
    }
}

proof fn lemma_measure_push(st: Seq<(usize, Board)>, n: (usize, Board))
    ensures
        measure(st.push(n)) == measure(st) + pow10(blanks(n.1@)),
{
    assert(st.push(n).drop_last() =~= st);
    assert(st.push(n).last() == n);
}

/// Filling an empty cell lowers the blank count by one.
proof fn lemma_blanks_update(s: Seq<u8>, i: int, d: u8)
    requires
        0 <= i < s.len(),
        s[i] == 0,
        d != 0,
    ensures
        blanks(s.update(i, d)) + 1 == blanks(s),
    decreases s.len(),
{
    if i == s.len() - 1 {
        assert(s.update(i, d).drop_last() =~= s.drop_last());
        assert(s.update(i, d).last() == d);
    } else {
        lemma_blanks_update(s.drop_last(), i, d);
        assert(s.update(i, d).drop_last() =~= s.drop_last().update(i, d));
        assert(s.update(i, d).last() == s.last());
    }
}

/// A grid with an empty cell has at least one blank.
proof fn lemma_blanks_pos(s: Seq<u8>, i: int)
    requires
        0 <= i < s.len(),
        s[i] == 0,
    ensures
        blanks(s) >= 1,
    decreases s.len(),
{
    if i < s.len() - 1 {
        lemma_blanks_pos(s.drop_last(), i);
    }
}

/// In a strictly ascending digit sequence, the entry at position k is at
/// least k + 1.
proof fn lemma_ascending_lower(c: Seq<u8>, k: int)
    requires
        forall|k1: int, k2: int| 0 <= k1 < k2 < c.len() ==> c[k1] < c[k2],
        forall|k0: int| 0 <= k0 < c.len() ==> 1 <= #[trigger] c[k0] <= 9,
        0 <= k < c.len(),
    ensures
        c[k] >= 1 + k,
    decreases k,
{
    if k > 0 {
        lemma_ascending_lower(c, k - 1);
        assert(c[k - 1] < c[k]);
    }
}

/// A strictly ascending sequence of digits 1..=9 holds at most nine.
proof fn lemma_cands_len(c: Seq<u8>)
    requires
        forall|k1: int, k2: int| 0 <= k1 < k2 < c.len() ==> c[k1] < c[k2],
        forall|k0: int| 0 <= k0 < c.len() ==> 1 <= #[trigger] c[k0] <= 9,
    ensures
        c.len() <= 9,
{
    if c.len() > 9 {
        lemma_ascending_lower(c, 9);
        assert(c[9] >= 10);
    }
}

/// Solves the board by iterative depth-first search over an explicit
/// work stack of grid snapshots. Returns the first fully filled grid the
/// search reaches: every cell holds a digit, the cells filled at the
/// start are kept, and the search has introduced no duplicate digit into
/// any row, column, or box. Returns `None` once the stack is exhausted.
/// A board that is already full comes back unchanged.
pub fn solve(b: Board) -> (r: Option<Board>)
    requires
        b.wf(),
    ensures
        r matches Some(g) ==> g.wf() && full(g@) && extends(b@, g@) && no_new_conflict(b@, g@),
        full(b@) ==> r == Some(b),
        r is None ==> forall|s: Seq<u8>| !proper_solution(b@, s),
{
    let mut stack: Vec<(usize, Board)> = Vec::new();
    stack.push((0, b));
    proof {
        assert(stack@ =~= seq![(0usize, b)]);
        assert forall|s: Seq<u8>| #[trigger] proper_solution(b@, s) implies exists|k: int|
            0 <= k < stack@.len() && extends(#[trigger] stack@[k].1@, s) by {
            assert(stack@[0].1 == b);
            assert(extends(b@, s));
        }
    }
    loop
        invariant
            b.wf(),
            forall|k: int| 0 <= k < stack@.len() ==> node_ok(b@, #[trigger] stack@[k]),
            full(b@) ==> stack@ == seq![(0usize, b)],
            forall|s: Seq<u8>| #[trigger] proper_solution(b@, s) ==> exists|k: int|
                0 <= k < stack@.len() && extends(#[trigger] stack@[k].1@, s),
        decreases measure(stack@),
    {
        let ghost m0 = measure(stack@);
        let ghost pre_stack = stack@;
        let node = match stack.pop() {
            Some(n) => n,
            None => {
                proof {
                    assert forall|s: Seq<u8>| !proper_solution(b@, s) by {
                        if proper_solution(b@, s) {
                            let k = choose|k: int|
                                0 <= k < stack@.len() && extends(stack@[k].1@, s);
                        }
                    }
                }
                return None;
            },
        };
        let mut i = node.0;
        let nb = node.1;
        proof {
            assert(measure(stack@) + pow10(blanks(nb@)) == m0);
            assert forall|s: Seq<u8>| #[trigger] proper_solution(b@, s) implies (exists|k: int|
                0 <= k < stack@.len() && extends(#[trigger] stack@[k].1@, s)) || extends(
                nb@,
                s,
            ) by {
                let k = choose|k: int| 0 <= k < pre_stack.len() && extends(pre_stack[k].1@, s);
                if k < pre_stack.len() - 1 {
                    assert(stack@[k] == pre_stack[k]);
                } else {
                    assert(pre_stack[k] == node);
                }
            }
        }
        // Advance the cursor over the cells that are already filled; at 81
        // every cell is filled and this branch is the solution.
        loop
            invariant
                b.wf(),
                nb.wf(),
                i <= 81,
                extends(b@, nb@),
                no_new_conflict(b@, nb@),
                forall|j: int| 0 <= j < i ==> nb@[j] != 0,
                forall|k: int| 0 <= k < stack@.len() ==> node_ok(b@, #[trigger] stack@[k]),
                full(b@) ==> (nb == b && stack@.len() == 0),
                measure(stack@) + pow10(blanks(nb@)) == m0,
                forall|s: Seq<u8>| #[trigger] proper_solution(b@, s) ==> (exists|k: int|
                    0 <= k < stack@.len() && extends(#[trigger] stack@[k].1@, s)) || extends(
                    nb@,
                    s,
                ),
            ensures
                i < 81,
                nb@[i as int] == 0,
                forall|s: Seq<u8>| #[trigger] proper_solution(b@, s) ==> (exists|k: int|
                    0 <= k < stack@.len() && extends(#[trigger] stack@[k].1@, s)) || extends(
                    nb@,
                    s,
                ),
            decreases 81 - i,
        {
            if i == 81 {
                return Some(nb);
            }
            proof {
                lemma_index_split(i as int);
            }
            let filled = match nb.get(i / 9, i % 9) {
                Some(d) => d != EMPTY,
                None => false,
            };
            if !filled {
                break;
            }
            i += 1;
        }
        proof {
            lemma_index_split(i as int);
            assert(nb@[i as int] == 0);
            lemma_blanks_pos(nb@, i as int);
        }
        // The cursor rests on an empty cell: branch out from here, one
        // snapshot per candidate digit, pushed in ascending order.
        let cands = nb.possible_inputs(i / 9, i % 9);
        let mut t: usize = 0;
        proof {
            assert forall|s: Seq<u8>| #[trigger] proper_solution(b@, s) implies (exists|k: int|
                0 <= k < stack@.len() && extends(#[trigger] stack@[k].1@, s)) || (extends(nb@, s)
                && exists|t0: int| 0 <= t0 < cands@.len() && cands@[t0] == s[i as int]) by {
                if !(exists|k: int| 0 <= k < stack@.len() && extends(#[trigger] stack@[k].1@, s)) {
                    lemma_solution_digit_free(nb@, s, i as int);
                    assert(cands@.contains(s[i as int]));
                }
            }
        }
        while t < cands.len()
            invariant
                b.wf(),
                nb.wf(),
                i < 81,
                nb@[i as int] == 0,
                extends(b@, nb@),
                no_new_conflict(b@, nb@),
                forall|j: int| 0 <= j < i ==> nb@[j] != 0,
                !full(b@),
                t <= cands@.len(),
                forall|k: int| 0 <= k < cands@.len() ==> 1 <= #[trigger] cands@[k] <= 9,
                forall|d: u8|
                    #[trigger] cands@.contains(d) ==> !digit_in_row(nb@, i as int / 9, d)
                        && !digit_in_col(nb@, i as int % 9, d) && !digit_in_box(
                        nb@,
                        i as int / 9,
                        i as int % 9,
                        d,
                    ),
                forall|k: int| 0 <= k < stack@.len() ==> node_ok(b@, #[trigger] stack@[k]),
                blanks(nb@) >= 1,
                measure(stack@) + pow10(blanks(nb@)) == m0 + t * pow10((blanks(nb@) - 1) as nat),
                forall|s: Seq<u8>| #[trigger] proper_solution(b@, s) ==> (exists|k: int|
                    0 <= k < stack@.len() && extends(#[trigger] stack@[k].1@, s)) || (extends(
                    nb@,
                    s,
                ) && exists|t0: int| t <= t0 < cands@.len() && cands@[t0] == s[i as int]),
            decreases cands@.len() - t,
        {
            let val = cands[t];
            proof {
                assert(cands@.contains(val));
            }
            let ghost pre_push = stack@;
            let mut branch = nb;
            branch.set(i / 9, i % 9, val);
            proof {
                lemma_index_split(i as int);
                assert(branch@ == nb@.update(i as int, val));
                lemma_assign_keeps_ok(b@, nb@, i as int, val);
                assert(node_ok(b@, (i, branch)));
                lemma_blanks_update(nb@, i as int, val);
                lemma_measure_push(stack@, (i, branch));
                assert((t + 1) * pow10((blanks(nb@) - 1) as nat) == t * pow10(
                    (blanks(nb@) - 1) as nat,
                ) + pow10((blanks(nb@) - 1) as nat)) by (nonlinear_arith);
            }
            stack.push((i, branch));
            proof {
                assert forall|s: Seq<u8>| #[trigger] proper_solution(b@, s) implies (exists|
                    k: int,
                |
                    0 <= k < stack@.len() && extends(#[trigger] stack@[k].1@, s)) || (extends(
                    nb@,
                    s,
                ) && exists|t0: int| t + 1 <= t0 < cands@.len() && cands@[t0] == s[i as int]) by {
                    if exists|k: int| 0 <= k < pre_push.len() && extends(#[trigger] pre_push[k].1@, s) {
                        let k = choose|k: int|
                            0 <= k < pre_push.len() && extends(pre_push[k].1@, s);
                        assert(stack@[k] == pre_push[k]);
                        assert(extends(stack@[k].1@, s));
                    } else {
                        let t0 = choose|t0: int|
                            t <= t0 < cands@.len() && cands@[t0] == s[i as int];
                        if t0 == t {
                            assert(extends(branch@, s)) by {
                                assert(branch@[i as int] == s[i as int]);
                                assert forall|l: int|
                                    0 <= l < 81 && branch@[l] != 0 implies #[trigger] s[l]
                                    == branch@[l] by {
                                    if l != i {
                                        assert(branch@[l] == nb@[l]);
                                    }
                                }
                            }
                            assert(stack@[stack@.len() - 1] == (i, branch));
                        }
                    }
                }
            }
            t += 1;
        }
        proof {
            let bl = blanks(nb@);
            let wc = pow10((bl - 1) as nat);
            lemma_pow10_pos((bl - 1) as nat);
            lemma_cands_len(cands@);
            assert(pow10(bl) == 10 * wc);
            assert(cands@.len() * wc <= 9 * wc) by (nonlinear_arith)
                requires
                    cands@.len() <= 9,
                    wc >= 0,
            ;
            assert(measure(stack@) < m0);
        }
    }
}

} // verus!
