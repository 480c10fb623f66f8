use vstd::prelude::*;
use crate::grid::{
    block_seq, cell, col_seq, lemma_join3, lemma_join9, lemma_split3, row_seq, wf_grid, Block,
    ListOfNine, Sudoku,
};

verus! {

/// The validity state of one group of 9 cells.
#[derive(Clone, Copy, Debug, PartialEq, Eq, Structural)]
pub enum GroupState {
    /// No repeated non-zero value and no empty cell.
    CompleteValid,
    /// No repeated non-zero value, but at least one empty cell.
    PartialValid,
    /// Some non-zero value occurs twice.
    Invalid,
}

/// The validity state of a whole board.
#[derive(Clone, Copy, Debug, PartialEq, Eq, Structural)]
pub enum BoardState {
    /// Every group is complete and valid.
    Solved,
    /// No group is invalid, but some cell is still empty.
    InProgress,
    /// Some row, column or block repeats a non-zero value.
    Invalid,
}

/// Some non-zero value occurs at two positions of the sequence.
pub open spec fn seq_has_dup(s: Seq<u8>) -> bool {
    exists|i: int, j: int|
        #![trigger s[i], s[j]]
        0 <= i < j < s.len() && s[i] != 0 && s[i] == s[j]
}

/// Some position of the sequence is empty.
pub open spec fn seq_has_zero(s: Seq<u8>) -> bool {
    exists|i: int| 0 <= i < s.len() && s[i] == 0
}

/// The three-way classification of a group of 9 cells.
pub open spec fn group_state_of(s: Seq<u8>) -> GroupState {
    if seq_has_dup(s) {
        GroupState::Invalid
    } else if seq_has_zero(s) {
        GroupState::PartialValid
    } else {
        GroupState::CompleteValid
    }
}

/// Some of the 27 groups of the board repeats a non-zero value.
pub open spec fn board_has_dup(g: Seq<u8>) -> bool {
    ||| exists|r: int| 0 <= r < 9 && seq_has_dup(#[trigger] row_seq(g, r))
    ||| exists|c: int| 0 <= c < 9 && seq_has_dup(#[trigger] col_seq(g, c))
    ||| exists|br: int, bc: int|
        0 <= br < 3 && 0 <= bc < 3 && seq_has_dup(#[trigger] block_seq(g, br, bc))
}

/// Every cell of the board holds a digit.
pub open spec fn board_full(g: Seq<u8>) -> bool {
    forall|i: int| 0 <= i < 81 ==> g[i] != 0
}

/// The three-way classification of a board: invalid as soon as one group is
/// invalid; solved when no group is invalid and no cell is empty (every group
/// is then complete); in progress otherwise.
pub open spec fn board_state_of(g: Seq<u8>) -> BoardState {
    if board_has_dup(g) {
        BoardState::Invalid
    } else if board_full(g) {
        BoardState::Solved
    } else {
        BoardState::InProgress
    }
}

/// Placing `v` at row `r`, column `c` would repeat no digit of the cell's
/// row, column, or block.
pub open spec fn placement_legal(g: Seq<u8>, r: int, c: int, v: u8) -> bool {
    &&& forall|c2: int| 0 <= c2 < 9 ==> #[trigger] cell(g, r, c2) != v
    &&& forall|r2: int| 0 <= r2 < 9 ==> #[trigger] cell(g, r2, c) != v
    &&& forall|i: int, j: int|
        0 <= i < 3 && 0 <= j < 3 ==> #[trigger] cell(g, (r / 3) * 3 + i, (c / 3) * 3 + j) != v
}

/// A legal placement on a board without repeats leaves it without repeats:
/// the solver's pruning step is sound.
pub proof fn lemma_legal_placement_keeps_valid(g: Seq<u8>, r: int, c: int, v: u8)
    requires
        wf_grid(g),
        !board_has_dup(g),
        0 <= r < 9,
        0 <= c < 9,
        cell(g, r, c) == 0,
        1 <= v <= 9,
        placement_legal(g, r, c, v),
    ensures
        !board_has_dup(g.update(r * 9 + c, v)),
{
    let g2 = g.update(r * 9 + c, v);
    assert forall|r2: int, c2: int|
        0 <= r2 < 9 && 0 <= c2 < 9 && !(r2 == r && c2 == c) implies #[trigger] cell(g2, r2, c2)
        == cell(g, r2, c2) by {
        if r2 * 9 + c2 == r * 9 + c {
            lemma_join9(r2, c2);
            lemma_join9(r, c);
        }
    }
    assert(cell(g2, r, c) == v);
    assert forall|r2: int| 0 <= r2 < 9 implies !seq_has_dup(#[trigger] row_seq(g2, r2)) by {
        let rs2 = row_seq(g2, r2);
        let rs = row_seq(g, r2);
        if seq_has_dup(rs2) {
            let (i, j) = choose|i: int, j: int|
                0 <= i < j < rs2.len() && rs2[i] != 0 && rs2[i] == rs2[j];
            assert(rs2[i] == cell(g2, r2, i));
            assert(rs2[j] == cell(g2, r2, j));
            if r2 == r && i == c {
                assert(cell(g2, r2, j) == cell(g, r2, j));
                assert(cell(g, r, j) != v);
                assert(false);
            } else if r2 == r && j == c {
                assert(cell(g2, r2, i) == cell(g, r2, i));
                assert(cell(g, r, i) != v);
                assert(false);
            } else {
                assert(rs[i] == cell(g, r2, i));
                assert(rs[j] == cell(g, r2, j));
                assert(rs[i] == rs2[i] && rs[j] == rs2[j]);
                assert(seq_has_dup(rs));
                assert(false);
            }
        }
    }
    assert forall|c2: int| 0 <= c2 < 9 implies !seq_has_dup(#[trigger] col_seq(g2, c2)) by {
        let cs2 = col_seq(g2, c2);
        let cs = col_seq(g, c2);
        if seq_has_dup(cs2) {
            let (i, j) = choose|i: int, j: int|
                0 <= i < j < cs2.len() && cs2[i] != 0 && cs2[i] == cs2[j];
            assert(cs2[i] == cell(g2, i, c2));
            assert(cs2[j] == cell(g2, j, c2));
            if c2 == c && i == r {
                assert(cell(g2, j, c2) == cell(g, j, c2));
                assert(cell(g, j, c) != v);
                assert(false);
            } else if c2 == c && j == r {
                assert(cell(g2, i, c2) == cell(g, i, c2));
                assert(cell(g, i, c) != v);
                assert(false);
            } else {
                assert(cs[i] == cell(g, i, c2));
                assert(cs[j] == cell(g, j, c2));
                assert(cs[i] == cs2[i] && cs[j] == cs2[j]);
                assert(seq_has_dup(cs));
                assert(false);
            }
        }
    }
    assert forall|br: int, bc: int|
        0 <= br < 3 && 0 <= bc < 3 implies !seq_has_dup(#[trigger] block_seq(g2, br, bc)) by {
        let bs2 = block_seq(g2, br, bc);
        let bs = block_seq(g, br, bc);
        if seq_has_dup(bs2) {
            let (i, j) = choose|i: int, j: int|
                0 <= i < j < bs2.len() && bs2[i] != 0 && bs2[i] == bs2[j];
            lemma_split3(i);
            lemma_split3(j);
            let ri = br * 3 + i / 3;
            let ci = bc * 3 + i % 3;
            let rj = br * 3 + j / 3;
            let cj = bc * 3 + j % 3;
            assert(bs2[i] == cell(g2, ri, ci));
            assert(bs2[j] == cell(g2, rj, cj));
            if ri == r && ci == c {
                assert(!(rj == r && cj == c));
                assert(cell(g2, rj, cj) == cell(g, rj, cj));
                vstd::arithmetic::div_mod::lemma_fundamental_div_mod_converse(r, 3, br, i / 3);
                vstd::arithmetic::div_mod::lemma_fundamental_div_mod_converse(c, 3, bc, i % 3);
                assert(cell(g, (r / 3) * 3 + j / 3, (c / 3) * 3 + j % 3) == cell(g, rj, cj));
                assert(cell(g, rj, cj) != v);
                assert(false);
            } else if rj == r && cj == c {
                assert(cell(g2, ri, ci) == cell(g, ri, ci));
                vstd::arithmetic::div_mod::lemma_fundamental_div_mod_converse(r, 3, br, j / 3);
                vstd::arithmetic::div_mod::lemma_fundamental_div_mod_converse(c, 3, bc, j % 3);
                assert(cell(g, (r / 3) * 3 + i / 3, (c / 3) * 3 + i % 3) == cell(g, ri, ci));
                assert(cell(g, ri, ci) != v);
                assert(false);
            } else {
                assert(cell(g2, ri, ci) == cell(g, ri, ci));
                assert(cell(g2, rj, cj) == cell(g, rj, cj));
                assert(bs[i] == cell(g, ri, ci));
                assert(bs[j] == cell(g, rj, cj));
                assert(bs[i] == bs2[i] && bs[j] == bs2[j]);
                assert(seq_has_dup(bs));
                assert(false);
            }
        }
    }
}

/// Classifies one group of 9 cells, by pairwise comparison of its entries.
#[verifier::loop_isolation(false)]
pub fn classify_group(group: &ListOfNine) -> (st: GroupState)
    ensures
        st == group_state_of(group.arr@),
{
    let s = &group.arr;
    let mut i: usize = 0;
    while i < 9
        invariant
            forall|a: int, b: int|
                #![trigger s@[a], s@[b]]
                0 <= a < b < 9 && a < i ==> !(s@[a] != 0 && s@[a] == s@[b]),
        decreases 9 - i,
    {
        let mut j: usize = i + 1;
        while j < 9
            invariant
                i < 9,
                i < j <= 9,
                forall|a: int, b: int|
                    #![trigger s@[a], s@[b]]
                    0 <= a < b < 9 && a < i ==> !(s@[a] != 0 && s@[a] == s@[b]),
                forall|b: int| i < b < j ==> !(s@[i as int] != 0 && s@[i as int] == s@[b]),
            decreases 9 - j,
        {
            if s[i] != 0 && s[i] == s[j] {
                assert(seq_has_dup(s@));
                return GroupState::Invalid;
            }
            j = j + 1;
        }
        i = i + 1;
    }
    assert(!seq_has_dup(s@));
    let mut k: usize = 0;
    while k < 9
        invariant
            forall|a: int| 0 <= a < k ==> s@[a] != 0,
            !seq_has_dup(s@),
        decreases 9 - k,
    {
        if s[k] == 0 {
            assert(seq_has_zero(s@));
            return GroupState::PartialValid;
        }
        k = k + 1;
    }
    assert(!seq_has_zero(s@));
    GroupState::CompleteValid
}

/// A group of 9 pairwise distinct digits `1..=9` is complete and valid.
pub proof fn lemma_distinct_digits_complete(s: Seq<u8>)
    requires
        s.len() == 9,
        forall|i: int| 0 <= i < 9 ==> (1 <= #[trigger] s[i] && s[i] <= 9),
        forall|i: int, j: int|
            #![trigger s[i], s[j]]
            0 <= i < j < 9 ==> s[i] != s[j],
    ensures
        group_state_of(s) == GroupState::CompleteValid,
{
}

/// A group that repeats a non-zero value is invalid, however many empty
/// cells stand beside the repeat.
pub proof fn lemma_repeated_value_invalid(s: Seq<u8>, i: int, j: int)
    requires
        s.len() == 9,
        0 <= i < j < 9,
        s[i] != 0,
        s[i] == s[j],
    ensures
        group_state_of(s) == GroupState::Invalid,
{
}

/// Classifying a board reads nothing but its cells: any two classifications
/// of one unmodified board agree.
pub proof fn lemma_classification_idempotent(st1: BoardState, st2: BoardState, g: Seq<u8>)
    requires
        st1 == board_state_of(g),
        st2 == board_state_of(g),
    ensures
        st1 == st2,
{
}

impl ListOfNine {
    /// Whether the group repeats no non-zero value. The group may still hold
    /// empty cells: those are ignored.
    pub fn is_valid(&self) -> (valid: bool)
        ensures
            valid == !seq_has_dup(self.arr@),
    {
        let st = classify_group(self);
        match st {
            GroupState::Invalid => false,
            _ => true,
        }
    }
}

impl Block {
    /// Whether the block's 9 cells are a complete, valid group.
    #[verifier::loop_isolation(false)]
    pub fn solved(&self) -> (solved: bool)
        ensures
            solved == (group_state_of(self.flat()) == GroupState::CompleteValid),
    {
        let mut arr: [u8; 9] = [0; 9];
        let mut k: usize = 0;
        while k < 9
            invariant
                k <= 9,
                forall|j: int| 0 <= j < k ==> arr@[j] == self.flat()[j],
            decreases 9 - k,
        {
            assert(k / 3 < 3 && k % 3 < 3) by {
                vstd::arithmetic::div_mod::lemma_fundamental_div_mod(k as int, 3);
                vstd::arithmetic::div_mod::lemma_mod_bound(k as int, 3);
            }
            arr[k] = self.grid[k / 3][k % 3];
            k = k + 1;
        }
        proof {
            assert(arr@ =~= self.flat());
        }
        let list = ListOfNine { arr, is_column: false };
        let st = classify_group(&list);
        match st {
            GroupState::CompleteValid => true,
            _ => false,
        }
    }
}

impl Sudoku {
    /// Classifies the whole board from its 27 groups.
    #[verifier::loop_isolation(false)]
    pub fn classify_board(&self) -> (st: BoardState)
        requires
            self.wf(),
        ensures
            st == board_state_of(self@),
    {
        let mut r: usize = 0;
        while r < 9
            invariant
                self.wf(),
                forall|r2: int| 0 <= r2 < r ==> !seq_has_dup(#[trigger] row_seq(self@, r2)),
            decreases 9 - r,
        {
            let g = self.row_group(r);
            if !g.is_valid() {
                return BoardState::Invalid;
            }
            r = r + 1;
        }
        let mut c: usize = 0;
        while c < 9
            invariant
                self.wf(),
                forall|r2: int| 0 <= r2 < 9 ==> !seq_has_dup(#[trigger] row_seq(self@, r2)),
                forall|c2: int| 0 <= c2 < c ==> !seq_has_dup(#[trigger] col_seq(self@, c2)),
            decreases 9 - c,
        {
            let g = self.column_group(c);
            if !g.is_valid() {
                return BoardState::Invalid;
            }
            c = c + 1;
        }
        let mut k: usize = 0;
        while k < 9
            invariant
                self.wf(),
                forall|r2: int| 0 <= r2 < 9 ==> !seq_has_dup(#[trigger] row_seq(self@, r2)),
                forall|c2: int| 0 <= c2 < 9 ==> !seq_has_dup(#[trigger] col_seq(self@, c2)),
                forall|k2: int|
                    0 <= k2 < k ==> !seq_has_dup(#[trigger] block_seq(self@, k2 / 3, k2 % 3)),
            decreases 9 - k,
        {
            assert(k / 3 < 3 && k % 3 < 3) by {
                vstd::arithmetic::div_mod::lemma_fundamental_div_mod(k as int, 3);
                vstd::arithmetic::div_mod::lemma_mod_bound(k as int, 3);
            }
            let g = self.block_group(k / 3, k % 3);
            if !g.is_valid() {
                return BoardState::Invalid;
            }
            k = k + 1;
        }
        proof {
            assert forall|br: int, bc: int| 0 <= br < 3 && 0 <= bc < 3
                implies !seq_has_dup(#[trigger] block_seq(self@, br, bc)) by {
                let k2 = br * 3 + bc;
                vstd::arithmetic::div_mod::lemma_fundamental_div_mod_converse(k2, 3, br, bc);
                assert(!seq_has_dup(block_seq(self@, k2 / 3, k2 % 3)));
            }
            assert(!board_has_dup(self@));
        }
        let mut i: usize = 0;
        while i < 81
            invariant
                self.wf(),
                !board_has_dup(self@),
                forall|j: int| 0 <= j < i ==> self@[j] != 0,
            decreases 81 - i,
        {
            assert(i / 9 < 9 && i % 9 < 9 && 9 * (i / 9) + i % 9 == i) by {
                vstd::arithmetic::div_mod::lemma_fundamental_div_mod(i as int, 9);
                vstd::arithmetic::div_mod::lemma_mod_bound(i as int, 9);
            }
            if self.get(i / 9, i % 9) == 0 {
                assert(self@[i as int] == 0);
                return BoardState::InProgress;
            }
            i = i + 1;
        }
        assert(board_full(self@));
        BoardState::Solved
    }

    /// Whether placing `v` at the currently empty cell (`r`, `c`) would keep
    /// the cell's row, column and block free of repeats. Only the 3 groups
    /// through the cell are read, not the whole board.
    #[verifier::loop_isolation(false)]
    pub fn is_placement_legal(&self, r: usize, c: usize, v: u8) -> (legal: bool)
        requires
            self.wf(),
            r < 9,
            c < 9,
            cell(self@, r as int, c as int) == 0,
            1 <= v <= 9,
        ensures
            legal == placement_legal(self@, r as int, c as int, v),
    {
        let mut c2: usize = 0;
        while c2 < 9
            invariant
                forall|j: int| 0 <= j < c2 ==> cell(self@, r as int, j) != v,
            decreases 9 - c2,
        {
            if self.get(r, c2) == v {
                return false;
            }
            c2 = c2 + 1;
        }
        let mut r2: usize = 0;
        while r2 < 9
            invariant
                forall|j: int| 0 <= j < 9 ==> cell(self@, r as int, j) != v,
                forall|j: int| 0 <= j < r2 ==> cell(self@, j, c as int) != v,
            decreases 9 - r2,
        {
            if self.get(r2, c) == v {
                return false;
            }
            r2 = r2 + 1;
        }
        proof {
            lemma_split3(r as int);
            lemma_split3(c as int);
        }
        let br = (r / 3) * 3;
        let bc = (c / 3) * 3;
        let mut k: usize = 0;
        while k < 9
            invariant
                forall|j: int| 0 <= j < 9 ==> cell(self@, r as int, j) != v,
                forall|j: int| 0 <= j < 9 ==> cell(self@, j, c as int) != v,
                forall|j: int| 0 <= j < k
                    ==> cell(self@, br + #[trigger] (j / 3), bc + j % 3) != v,
            decreases 9 - k,
        {
            proof {
                lemma_split3(k as int);
            }
            if self.get(br + k / 3, bc + k % 3) == v {
                proof {
                    assert(cell(
                        self@,
                        (r as int / 3) * 3 + (k as int / 3),
                        (c as int / 3) * 3 + (k as int % 3),
                    ) == v);
                }
                return false;
            }
            k = k + 1;
        }
        proof {
            assert forall|i: int, j: int|
                0 <= i < 3 && 0 <= j < 3 implies #[trigger] cell(
                self@,
                (r as int / 3) * 3 + i,
                (c as int / 3) * 3 + j,
            ) != v by {
                let k2 = i * 3 + j;
                lemma_join3(i, j);
                assert(cell(self@, br + k2 / 3, bc + k2 % 3) != v);
            }
        }
        true
    }

    /// Whether the board is solved: no group invalid and no cell empty.
    #[verifier::loop_isolation(false)]
    pub fn solved(&self) -> (solved: bool)
        requires
            self.wf(),
        ensures
            solved == (board_state_of(self@) == BoardState::Solved),
    {
        let st = self.classify_board();
        match st {
            BoardState::Solved => true,
            _ => false,
        }
    }
}

} // verus!
