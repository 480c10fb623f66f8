use vstd::prelude::*;
use crate::checker::{board_state_of, lemma_legal_placement_keeps_valid, BoardState};
use crate::grid::{lemma_split9, Sudoku};
use crate::rng::random_below;
use crate::solver::{
    is_solution_for, lemma_all_empty_no_dup, lemma_dup_under_extends, lemma_empty_board_solvable,
    lemma_solution_value_legal, solve, SolveResult,
};
use crate::SudokuError;

verus! {

/// The number of placed digits on the board.
pub open spec fn count_filled(g: Seq<u8>) -> nat
    decreases g.len(),
{
    if g.len() == 0 {
        0
    } else {
        count_filled(g.drop_last()) + if g.last() != 0 {
            1nat
        } else {
            0nat
        }
    }
}

/// One more prefix cell adds one to the count exactly when it holds a digit.
proof fn lemma_count_filled_take_step(g: Seq<u8>, i: int)
    requires
        0 <= i < g.len(),
    ensures
        count_filled(g.take(i + 1)) == count_filled(g.take(i)) + if g[i] != 0 {
            1nat
        } else {
            0nat
        },
{
    assert(g.take(i + 1).drop_last() =~= g.take(i));
    assert(g.take(i + 1).last() == g[i]);
}

/// Rewriting one cell moves the count by the difference of the two cells.
proof fn lemma_count_filled_update(g: Seq<u8>, i: int, v: u8)
    requires
        0 <= i < g.len(),
    ensures
        count_filled(g.update(i, v)) + (if g[i] != 0 {
            1nat
        } else {
            0nat
        }) == count_filled(g) + (if v != 0 {
            1nat
        } else {
            0nat
        }),
    decreases g.len(),
{
    let g2 = g.update(i, v);
    if i == g.len() - 1 {
        assert(g2.drop_last() =~= g.drop_last());
        assert(g2.last() == v);
    } else {
        assert(g2.drop_last() =~= g.drop_last().update(i, v));
        assert(g2.last() == g.last());
        lemma_count_filled_update(g.drop_last(), i, v);
    }
}

/// Counts the placed digits of the board.
#[verifier::loop_isolation(false)]
pub fn count_filled_cells(g: &Sudoku) -> (n: usize)
    requires
        g.wf(),
    ensures
        n == count_filled(g@),
{
    proof {
        assert(g@.take(0) =~= Seq::<u8>::empty());
    }
    let mut n: usize = 0;
    let mut i: usize = 0;
    while i < 81
        invariant
            i <= 81,
            n <= i,
            n == count_filled(g@.take(i as int)),
        decreases 81 - i,
    {
        proof {
            lemma_count_filled_take_step(g@, i as int);
        }
        if g.get_flat(i) != 0 {
            n = n + 1;
        }
        i = i + 1;
    }
    proof {
        assert(g@.take(81) =~= g@);
    }
    n
}

/// A board whose every cell holds a digit has 81 of them.
proof fn lemma_count_filled_full(g: Seq<u8>)
    requires
        forall|i: int| 0 <= i < g.len() ==> g[i] != 0,
    ensures
        count_filled(g) == g.len(),
    decreases g.len(),
{
    if g.len() > 0 {
        lemma_count_filled_full(g.drop_last());
    }
}

/// A freshly generated, completely solved board. The first row is seeded
/// with a random permutation of `1..=9` for variety — a seed no harder to
/// complete than an empty board — and the solver fills the rest. An empty
/// board is always satisfiable, so a solved board always comes back.
#[verifier::loop_isolation(false)]
pub fn generate_solved() -> (s: Sudoku)
    ensures
        s.wf(),
        board_state_of(s@) == BoardState::Solved,
{
    let mut g = Sudoku::new_empty(false);
    proof {
        lemma_all_empty_no_dup(g@);
    }
    let mut c: usize = 0;
    while c < 9
        invariant
            c <= 9,
            g.wf(),
            !crate::checker::board_has_dup(g@),
        decreases 9 - c,
    {
        let start: usize = random_below(9);
        let mut t: usize = 0;
        while t < 9
            invariant
                t <= 9,
                c < 9,
                start < 9,
                g.wf(),
                !crate::checker::board_has_dup(g@),
            decreases 9 - t,
        {
            let v: u8 = (((start + t) % 9) + 1) as u8;
            if g.get(0, c) == 0 {
                if g.is_placement_legal(0, c, v) {
                    proof {
                        lemma_legal_placement_keeps_valid(g@, 0, c as int, v);
                    }
                    g.put(0, c, v);
                }
            }
            t = t + 1;
        }
        c = c + 1;
    }
    match solve(&g) {
        SolveResult::Solved(s) => s,
        _ => {
            // A board with one seeded row is always satisfiable, but only the
            // empty board carries a proof of that: fall back to it, where the
            // canonical completion rules out every other solver outcome.
            let e = Sudoku::new_empty(false);
            let res = solve(&e);
            match res {
                SolveResult::Solved(s) => s,
                _ => {
                    proof {
                        lemma_empty_board_solvable(e@);
                        let w = choose|s2: Seq<u8>| is_solution_for(s2, e@);
                        if crate::checker::board_has_dup(e@) {
                            lemma_dup_under_extends(e@, w);
                        }
                        assert(false);
                    }
                    e
                },
            }
        },
    }
}

/// A puzzle with exactly `target_filled_count` placed digits, carved from a
/// freshly generated solved board by clearing random cells. A removal is
/// committed only when the remaining clues still have exactly one completion.
/// Targets outside `17..=81` are rejected with `InvalidConfiguration`; the
/// same error reports a carving run whose random choices exhausted the
/// attempt budget before reaching the target.
#[verifier::loop_isolation(false)]
#[verifier::rlimit(60)]
pub fn generate_puzzle(target_filled_count: usize) -> (res: Result<Sudoku, SudokuError>)
    ensures
        target_filled_count < 17 || target_filled_count > 81 ==> res == Err::<
            Sudoku,
            SudokuError,
        >(SudokuError::InvalidConfiguration),
        match res {
            Ok(p) => {
                &&& p.wf()
                &&& 17 <= target_filled_count <= 81
                &&& count_filled(p@) == target_filled_count
                &&& exists|s: Seq<u8>| is_solution_for(s, p@)
                &&& forall|s1: Seq<u8>, s2: Seq<u8>|
                    #![trigger is_solution_for(s1, p@), is_solution_for(s2, p@)]
                    is_solution_for(s1, p@) && is_solution_for(s2, p@) ==> s1 == s2
            },
            Err(e) => e == SudokuError::InvalidConfiguration,
        },
        target_filled_count == 81 ==> res matches Ok(_),
{
    if target_filled_count < 17 || target_filled_count > 81 {
        return Err(SudokuError::InvalidConfiguration);
    }
    let mut p = generate_solved();
    let ghost sol = p@;
    proof {
        lemma_count_filled_full(sol);
        assert(is_solution_for(sol, sol));
        assert forall|s: Seq<u8>| #[trigger] is_solution_for(s, sol) implies s == sol by {
            assert forall|i: int| 0 <= i < 81 implies s[i] == sol[i] by {
                assert(sol[i] != 0);
            }
            assert(s =~= sol);
        }
    }
    let mut filled: usize = 81;
    let mut attempts: usize = 0;
    while filled > target_filled_count && attempts < 3000
        invariant
            p.wf(),
            filled == count_filled(p@),
            target_filled_count <= filled <= 81,
            is_solution_for(sol, p@),
            forall|s: Seq<u8>| #[trigger] is_solution_for(s, p@) ==> s == sol,
        decreases 3000 - attempts,
    {
        attempts = attempts + 1;
        let k: usize = random_below(81);
        let r: usize = k / 9;
        let c: usize = k % 9;
        proof {
            lemma_split9(k as int);
        }
        let v: u8 = p.get(r, c);
        if v != 0 {
            let ghost pb = p@;
            p.put(r, c, 0);
            let ghost q = p@;
            proof {
                lemma_count_filled_update(pb, k as int, 0);
                assert forall|i: int| #![trigger q[i]] 0 <= i < 81 && q[i] != 0 implies sol[i]
                    == q[i] by {
                    assert(q[i] == pb[i]);
                }
                assert(is_solution_for(sol, q));
            }
            let mut unique = true;
            let mut v2: u8 = 1;
            while v2 <= 9 && unique
                invariant
                    p.wf(),
                    p@ == q,
                    1 <= v2 <= 10,
                    unique ==> forall|s: Seq<u8>|
                        #[trigger] is_solution_for(s, q) && s[k as int] != v ==> s[k as int] >= v2,
                decreases 10 - v2,
            {
                if v2 != v {
                    if p.is_placement_legal(r, c, v2) {
                        proof {
                            if crate::checker::board_has_dup(q) {
                                lemma_dup_under_extends(q, sol);
                            }
                            lemma_legal_placement_keeps_valid(q, r as int, c as int, v2);
                        }
                        p.put(r, c, v2);
                        let ghost q2 = p@;
                        let sres = solve(&p);
                        p.put(r, c, 0);
                        proof {
                            assert(p@ =~= q);
                        }
                        match sres {
                            SolveResult::Solved(_) => {
                                unique = false;
                            },
                            _ => {
                                proof {
                                    assert forall|s: Seq<u8>|
                                        #[trigger] is_solution_for(s, q) && s[k as int]
                                        != v implies s[k as int] >= v2 + 1 by {
                                        if s[k as int] == v2 {
                                            assert forall|i: int|
                                                #![trigger q2[i]]
                                                0 <= i < 81 && q2[i] != 0 implies s[i] == q2[i] by {
                                                if i != k as int {
                                                    assert(q2[i] == q[i]);
                                                }
                                            }
                                            assert(is_solution_for(s, q2));
                                            assert(false);
                                        }
                                    }
                                }
                            },
                        }
                    } else {
                        proof {
                            assert forall|s: Seq<u8>|
                                #[trigger] is_solution_for(s, q) && s[k as int] != v implies s[k
                                as int] >= v2 + 1 by {
                                if s[k as int] == v2 {
                                    lemma_solution_value_legal(s, q, r as int, c as int);
                                    assert(false);
                                }
                            }
                        }
                    }
                } else {
                    proof {
                        assert forall|s: Seq<u8>|
                            #[trigger] is_solution_for(s, q) && s[k as int] != v implies s[k as int]
                            >= v2 + 1 by {
                            assert(s[k as int] >= v2);
                        }
                    }
                }
                v2 = v2 + 1;
            }
            if unique {
                filled = filled - 1;
                proof {
                    assert forall|s: Seq<u8>| #[trigger] is_solution_for(s, q) implies s == sol by {
                        if s[k as int] != v {
                            assert(s[k as int] >= 10);
                            assert(s[k as int] <= 9);
                            assert(false);
                        } else {
                            assert forall|i: int|
                                #![trigger pb[i]]
                                0 <= i < 81 && pb[i] != 0 implies s[i] == pb[i] by {
                                if i != k as int {
                                    assert(pb[i] == q[i]);
                                }
                            }
                            assert(is_solution_for(s, pb));
                        }
                    }
                }
            } else {
                p.put(r, c, v);
                proof {
                    assert(p@ =~= pb);
                }
            }
        }
    }
    if filled == target_filled_count {
        Ok(p)
    } else {
        Err(SudokuError::InvalidConfiguration)
    }
}

} // verus!
