use vstd::prelude::*;
use crate::checker::{
    board_full, board_has_dup, board_state_of, lemma_legal_placement_keeps_valid,
    placement_legal, seq_has_dup, BoardState,
};
use crate::grid::{
    block_seq, cell, col_seq, lemma_join9, lemma_split9, row_seq, wf_grid, Sudoku,
};

verus! {

/// `s` keeps every clue of `g`: wherever `g` holds a digit, `s` holds the
/// same digit.
pub open spec fn extends(s: Seq<u8>, g: Seq<u8>) -> bool {
    forall|i: int| #![trigger s[i]] #![trigger g[i]] 0 <= i < 81 && g[i] != 0 ==> s[i] == g[i]
}

/// `s` is a full, repeat-free board that keeps every clue of `g`.
pub open spec fn is_solution_for(s: Seq<u8>, g: Seq<u8>) -> bool {
    &&& wf_grid(s)
    &&& board_full(s)
    &&& !board_has_dup(s)
    &&& extends(s, g)
}

/// A solution is classified as solved.
pub proof fn lemma_solution_is_solved(s: Seq<u8>, g: Seq<u8>)
    requires
        is_solution_for(s, g),
    ensures
        board_state_of(s) == BoardState::Solved,
{
}

/// A repeat inside the clues survives in any board that keeps them.
pub proof fn lemma_dup_under_extends(g: Seq<u8>, s: Seq<u8>)
    requires
        g.len() == 81,
        s.len() == 81,
        extends(s, g),
        board_has_dup(g),
    ensures
        board_has_dup(s),
{
    assert forall|r: int, c: int|
        0 <= r < 9 && 0 <= c < 9 && cell(g, r, c) != 0 implies #[trigger] cell(s, r, c) == cell(
        g,
        r,
        c,
    ) by {
        assert(g[r * 9 + c] != 0);
    }
    if exists|r: int| 0 <= r < 9 && seq_has_dup(#[trigger] row_seq(g, r)) {
        let r = choose|r: int| 0 <= r < 9 && seq_has_dup(#[trigger] row_seq(g, r));
        let rs = row_seq(g, r);
        let (i, j) = choose|i: int, j: int| 0 <= i < j < rs.len() && rs[i] != 0 && rs[i] == rs[j];
        let ss = row_seq(s, r);
        assert(ss[i] == cell(s, r, i) && ss[j] == cell(s, r, j));
        assert(ss[i] != 0 && ss[i] == ss[j]);
        assert(seq_has_dup(ss));
    } else if exists|c: int| 0 <= c < 9 && seq_has_dup(#[trigger] col_seq(g, c)) {
        let c = choose|c: int| 0 <= c < 9 && seq_has_dup(#[trigger] col_seq(g, c));
        let cs = col_seq(g, c);
        let (i, j) = choose|i: int, j: int| 0 <= i < j < cs.len() && cs[i] != 0 && cs[i] == cs[j];
        let ss = col_seq(s, c);
        assert(ss[i] == cell(s, i, c) && ss[j] == cell(s, j, c));
        assert(ss[i] != 0 && ss[i] == ss[j]);
        assert(seq_has_dup(ss));
    } else {
        let (br, bc) = choose|br: int, bc: int|
            0 <= br < 3 && 0 <= bc < 3 && seq_has_dup(#[trigger] block_seq(g, br, bc));
        let bs = block_seq(g, br, bc);
        let (i, j) = choose|i: int, j: int| 0 <= i < j < bs.len() && bs[i] != 0 && bs[i] == bs[j];
        crate::grid::lemma_split3(i);
        crate::grid::lemma_split3(j);
        let ss = block_seq(s, br, bc);
        assert(bs[i] == cell(g, br * 3 + i / 3, bc * 3 + i % 3));
        assert(bs[j] == cell(g, br * 3 + j / 3, bc * 3 + j % 3));
        assert(ss[i] == cell(s, br * 3 + i / 3, bc * 3 + i % 3));
        assert(ss[j] == cell(s, br * 3 + j / 3, bc * 3 + j % 3));
        assert(ss[i] != 0 && ss[i] == ss[j]);
        assert(seq_has_dup(ss));
    }
}

/// A board with no digit at all repeats nothing.
pub proof fn lemma_all_empty_no_dup(g: Seq<u8>)
    requires
        g.len() == 81,
        forall|i: int| 0 <= i < 81 ==> g[i] == 0,
    ensures
        !board_has_dup(g),
{
    assert forall|r: int| 0 <= r < 9 implies !seq_has_dup(#[trigger] row_seq(g, r)) by {
        if seq_has_dup(row_seq(g, r)) {
            let rs = row_seq(g, r);
            let (i, j) = choose|i: int, j: int|
                0 <= i < j < rs.len() && rs[i] != 0 && rs[i] == rs[j];
            assert(rs[i] == cell(g, r, i));
            assert(g[r * 9 + i] == 0);
        }
    }
    assert forall|c: int| 0 <= c < 9 implies !seq_has_dup(#[trigger] col_seq(g, c)) by {
        if seq_has_dup(col_seq(g, c)) {
            let cs = col_seq(g, c);
            let (i, j) = choose|i: int, j: int|
                0 <= i < j < cs.len() && cs[i] != 0 && cs[i] == cs[j];
            assert(cs[i] == cell(g, i, c));
            assert(g[i * 9 + c] == 0);
        }
    }
    assert forall|br: int, bc: int|
        0 <= br < 3 && 0 <= bc < 3 implies !seq_has_dup(#[trigger] block_seq(g, br, bc)) by {
        if seq_has_dup(block_seq(g, br, bc)) {
            let bs = block_seq(g, br, bc);
            let (i, j) = choose|i: int, j: int|
                0 <= i < j < bs.len() && bs[i] != 0 && bs[i] == bs[j];
            crate::grid::lemma_split3(i);
            assert(bs[i] == cell(g, br * 3 + i / 3, bc * 3 + i % 3));
            assert(g[(br * 3 + i / 3) * 9 + (bc * 3 + i % 3)] == 0);
        }
    }
}

/// The digit shift of row `r` in the canonical completed board.
spec fn canon_shift(r: int) -> int {
    3 * (r % 3) + r / 3
}

/// The digit of the canonical completed board at row `r`, column `c`.
spec fn canon_cell(r: int, c: int) -> u8 {
    (((canon_shift(r) + c) % 9) + 1) as u8
}

/// The canonical completed board as a flat view.
spec fn canon_board() -> Seq<u8> {
    Seq::new(81, |i: int| canon_cell(i / 9, i % 9))
}

/// Two distinct indices less than 9 apart stay distinct modulo 9.
proof fn lemma_mod9_distinct(x: int, y: int)
    requires
        0 <= x,
        0 <= y,
        x != y,
        -9 < x - y < 9,
    ensures
        x % 9 != y % 9,
{
    if x % 9 == y % 9 {
        vstd::arithmetic::div_mod::lemma_fundamental_div_mod(x, 9);
        vstd::arithmetic::div_mod::lemma_fundamental_div_mod(y, 9);
        assert(x - y == 9 * (x / 9) - 9 * (y / 9));
    }
}

/// The row shifts of the canonical board lie in `0..9` and never repeat.
proof fn lemma_canon_shift(r1: int, r2: int)
    requires
        0 <= r1 < 9,
        0 <= r2 < 9,
    ensures
        0 <= canon_shift(r1) <= 8,
        r1 != r2 ==> canon_shift(r1) != canon_shift(r2),
{
    crate::grid::lemma_split3(r1);
    crate::grid::lemma_split3(r2);
}

/// A board without any clue has a completion: the canonical board solves it.
pub proof fn lemma_empty_board_solvable(g: Seq<u8>)
    requires
        g.len() == 81,
        forall|i: int| 0 <= i < 81 ==> g[i] == 0,
    ensures
        exists|s: Seq<u8>| is_solution_for(s, g),
{
    let s = canon_board();
    assert forall|r: int, c: int|
        0 <= r < 9 && 0 <= c < 9 implies #[trigger] cell(s, r, c) == canon_cell(r, c) && 1 <= cell(
        s,
        r,
        c,
    ) <= 9 by {
        lemma_join9(r, c);
        lemma_canon_shift(r, r);
        vstd::arithmetic::div_mod::lemma_mod_bound(canon_shift(r) + c, 9);
    }
    assert forall|i: int| 0 <= i < 81 implies 1 <= #[trigger] s[i] && s[i] <= 9 by {
        lemma_split9(i);
        assert(s[(i / 9) * 9 + i % 9] == cell(s, i / 9, i % 9));
    }
    assert(wf_grid(s));
    assert(board_full(s));
    assert forall|r: int| 0 <= r < 9 implies !seq_has_dup(#[trigger] row_seq(s, r)) by {
        if seq_has_dup(row_seq(s, r)) {
            let rs = row_seq(s, r);
            let (c1, c2) = choose|i: int, j: int|
                0 <= i < j < rs.len() && rs[i] != 0 && rs[i] == rs[j];
            assert(rs[c1] == cell(s, r, c1) && rs[c2] == cell(s, r, c2));
            lemma_canon_shift(r, r);
            vstd::arithmetic::div_mod::lemma_mod_bound(canon_shift(r) + c1, 9);
            vstd::arithmetic::div_mod::lemma_mod_bound(canon_shift(r) + c2, 9);
            lemma_mod9_distinct(canon_shift(r) + c1, canon_shift(r) + c2);
        }
    }
    assert forall|c: int| 0 <= c < 9 implies !seq_has_dup(#[trigger] col_seq(s, c)) by {
        if seq_has_dup(col_seq(s, c)) {
            let cs = col_seq(s, c);
            let (r1, r2) = choose|i: int, j: int|
                0 <= i < j < cs.len() && cs[i] != 0 && cs[i] == cs[j];
            assert(cs[r1] == cell(s, r1, c) && cs[r2] == cell(s, r2, c));
            lemma_canon_shift(r1, r2);
            lemma_canon_shift(r2, r1);
            vstd::arithmetic::div_mod::lemma_mod_bound(canon_shift(r1) + c, 9);
            vstd::arithmetic::div_mod::lemma_mod_bound(canon_shift(r2) + c, 9);
            lemma_mod9_distinct(canon_shift(r1) + c, canon_shift(r2) + c);
        }
    }
    assert forall|br: int, bc: int|
        0 <= br < 3 && 0 <= bc < 3 implies !seq_has_dup(#[trigger] block_seq(s, br, bc)) by {
        if seq_has_dup(block_seq(s, br, bc)) {
            let bs = block_seq(s, br, bc);
            let (k1, k2) = choose|i: int, j: int|
                0 <= i < j < bs.len() && bs[i] != 0 && bs[i] == bs[j];
            crate::grid::lemma_split3(k1);
            crate::grid::lemma_split3(k2);
            let r1 = br * 3 + k1 / 3;
            let c1 = bc * 3 + k1 % 3;
            let r2 = br * 3 + k2 / 3;
            let c2 = bc * 3 + k2 % 3;
            assert(bs[k1] == cell(s, r1, c1) && bs[k2] == cell(s, r2, c2));
            vstd::arithmetic::div_mod::lemma_fundamental_div_mod_converse(r1, 3, br, k1 / 3);
            vstd::arithmetic::div_mod::lemma_fundamental_div_mod_converse(c1, 3, bc, k1 % 3);
            vstd::arithmetic::div_mod::lemma_fundamental_div_mod_converse(r2, 3, br, k2 / 3);
            vstd::arithmetic::div_mod::lemma_fundamental_div_mod_converse(c2, 3, bc, k2 % 3);
            assert(canon_shift(r1) + c1 == k1 + br + 3 * bc);
            assert(canon_shift(r2) + c2 == k2 + br + 3 * bc);
            vstd::arithmetic::div_mod::lemma_mod_bound(canon_shift(r1) + c1, 9);
            vstd::arithmetic::div_mod::lemma_mod_bound(canon_shift(r2) + c2, 9);
            lemma_mod9_distinct(canon_shift(r1) + c1, canon_shift(r2) + c2);
        }
    }
    assert(extends(s, g));
    assert(is_solution_for(s, g));
}

/// The outcome of a solver run: a completed board, a proof-carrying refusal,
/// or an immediate rejection of contradictory clues.
#[derive(Clone, Debug)]
pub enum SolveResult {
    /// A completed board that satisfies every constraint and keeps the clues.
    Solved(Sudoku),
    /// No completion of the clues exists.
    Unsatisfiable,
    /// The clues themselves already repeat a digit in some group.
    Invalid,
}

/// The digit a solution puts at an empty cell is a legal placement there.
pub proof fn lemma_solution_value_legal(s: Seq<u8>, g: Seq<u8>, r: int, c: int)
    requires
        wf_grid(g),
        is_solution_for(s, g),
        0 <= r < 9,
        0 <= c < 9,
        cell(g, r, c) == 0,
    ensures
        placement_legal(g, r, c, cell(s, r, c)),
        1 <= cell(s, r, c) <= 9,
{
    let v = cell(s, r, c);
    assert(s[r * 9 + c] != 0);
    assert(s[r * 9 + c] <= 9);
    assert forall|c2: int| 0 <= c2 < 9 implies #[trigger] cell(g, r, c2) != v by {
        if cell(g, r, c2) == v {
            assert(cell(s, r, c2) == v);
            let rs = crate::grid::row_seq(s, r);
            assert(rs[c2] == v && rs[c] == v);
            assert(c2 != c);
            assert(seq_has_dup(rs));
            assert(false);
        }
    }
    assert forall|r2: int| 0 <= r2 < 9 implies #[trigger] cell(g, r2, c) != v by {
        if cell(g, r2, c) == v {
            assert(cell(s, r2, c) == v);
            let cs = crate::grid::col_seq(s, c);
            assert(cs[r2] == v && cs[r] == v);
            assert(r2 != r);
            assert(seq_has_dup(cs));
            assert(false);
        }
    }
    let br = r / 3;
    let bc = c / 3;
    crate::grid::lemma_split3(r);
    crate::grid::lemma_split3(c);
    crate::grid::lemma_join3(r % 3, c % 3);
    assert forall|i: int, j: int|
        0 <= i < 3 && 0 <= j < 3 implies #[trigger] cell(g, br * 3 + i, bc * 3 + j) != v by {
        if cell(g, br * 3 + i, bc * 3 + j) == v {
            let r2 = br * 3 + i;
            let c2 = bc * 3 + j;
            assert(cell(s, r2, c2) == v);
            let bs = crate::grid::block_seq(s, br, bc);
            let k1 = i * 3 + j;
            let k0 = (r % 3) * 3 + (c % 3);
            crate::grid::lemma_join3(i, j);
            assert(bs[k1] == cell(s, r2, c2));
            assert(bs[k0] == cell(s, r, c));
            assert(k1 != k0);
            assert(seq_has_dup(bs));
            assert(false);
        }
    }
}

/// The flat index of the first empty cell at `start` or later, or `81` when
/// every such cell holds a digit.
#[verifier::loop_isolation(false)]
fn find_first_empty(g: &Sudoku, start: usize) -> (k: usize)
    requires
        g.wf(),
        start <= 81,
        forall|j: int| 0 <= j < start ==> g@[j] != 0,
    ensures
        start <= k <= 81,
        forall|j: int| 0 <= j < k ==> g@[j] != 0,
        k < 81 ==> g@[k as int] == 0,
{
    let mut k: usize = start;
    while k < 81
        invariant
            start <= k <= 81,
            forall|j: int| 0 <= j < k ==> g@[j] != 0,
        decreases 81 - k,
    {
        if g.get_flat(k) == 0 {
            return k;
        }
        k = k + 1;
    }
    k
}

/// Depth-first backtracking over the empty cells at flat index `start` or
/// later; every cell before `start` already holds a digit. On success the
/// board holds a solution of its entry state; on failure the board is
/// unchanged and no solution of it exists.
#[verifier::loop_isolation(false)]
fn solve_rec(g: &mut Sudoku, start: usize) -> (found: bool)
    requires
        old(g).wf(),
        !board_has_dup(old(g)@),
        start <= 81,
        forall|j: int| 0 <= j < start ==> old(g)@[j] != 0,
    ensures
        final(g).wf(),
        found ==> is_solution_for(final(g)@, old(g)@),
        !found ==> final(g)@ == old(g)@ && (forall|s: Seq<u8>| !is_solution_for(s, old(g)@)),
    decreases 81 - start,
{
    let k = find_first_empty(g, start);
    if k == 81 {
        assert(board_full(g@));
        return true;
    }
    let r: usize = k / 9;
    let c: usize = k % 9;
    proof {
        lemma_split9(k as int);
    }
    let ghost g0 = g@;
    let mut v: u8 = 1;
    while v <= 9
        invariant
            1 <= v <= 10,
            g@ == g0,
            forall|s: Seq<u8>| #[trigger] is_solution_for(s, g0) ==> s[k as int] >= v,
        decreases 10 - v,
    {
        if g.is_placement_legal(r, c, v) {
            proof {
                lemma_legal_placement_keeps_valid(g@, r as int, c as int, v);
            }
            g.put(r, c, v);
            let ghost g1 = g@;
            assert(g1 == g0.update(k as int, v));
            let found = solve_rec(g, k + 1);
            if found {
                proof {
                    assert forall|i: int|
                        #![trigger g0[i]]
                        0 <= i < 81 && g0[i] != 0 implies g@[i] == g0[i] by {
                        assert(g1[i] == g0[i]);
                        assert(g@[i] == g1[i]);
                    }
                    assert(extends(g@, g0));
                }
                return true;
            }
            g.put(r, c, 0);
            proof {
                assert(g@ =~= g0);
                assert forall|s: Seq<u8>|
                    #[trigger] is_solution_for(s, g0) implies s[k as int] != v by {
                    if s[k as int] == v {
                        assert forall|i: int|
                            #![trigger g1[i]]
                            0 <= i < 81 && g1[i] != 0 implies s[i] == g1[i] by {
                            if i != k as int {
                                assert(g1[i] == g0[i]);
                            }
                        }
                        assert(is_solution_for(s, g1));
                        assert(false);
                    }
                }
            }
        } else {
            proof {
                assert forall|s: Seq<u8>|
                    #[trigger] is_solution_for(s, g0) implies s[k as int] != v by {
                    if s[k as int] == v {
                        lemma_solution_value_legal(s, g0, r as int, c as int);
                        assert(placement_legal(g0, r as int, c as int, v));
                        assert(false);
                    }
                }
            }
        }
        v = v + 1;
    }
    proof {
        assert forall|s: Seq<u8>| !is_solution_for(s, g0) by {
            if is_solution_for(s, g0) {
                assert(s[k as int] >= 10);
                assert(s[k as int] <= 9);
            }
        }
    }
    false
}

/// Solves the board by backtracking search. The outcome is three-way:
/// `Invalid` exactly when the given clues already repeat a digit in a group;
/// otherwise `Solved` carries a full, repeat-free completion of the clues,
/// and `Unsatisfiable` is returned exactly when no completion exists.
///
/// The search is deterministic: empty cells are taken in row-major order and
/// candidate digits in ascending order, so equal inputs solve equally.
pub fn solve(grid: &Sudoku) -> (res: SolveResult)
    requires
        grid.wf(),
    ensures
        match res {
            SolveResult::Solved(sol) => sol.wf() && is_solution_for(sol@, grid@)
                && board_state_of(sol@) == BoardState::Solved,
            SolveResult::Unsatisfiable => !board_has_dup(grid@)
                && forall|s: Seq<u8>| !is_solution_for(s, grid@),
            SolveResult::Invalid => board_has_dup(grid@),
        },
{
    let st = grid.classify_board();
    match st {
        BoardState::Invalid => SolveResult::Invalid,
        _ => {
            let mut work = grid.duplicate();
            let found = solve_rec(&mut work, 0);
            if found {
                proof {
                    lemma_solution_is_solved(work@, grid@);
                }
                SolveResult::Solved(work)
            } else {
                SolveResult::Unsatisfiable
            }
        },
    }
}

} // verus!
