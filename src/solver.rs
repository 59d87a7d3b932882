use vstd::prelude::*;
use vstd::arithmetic::div_mod::{lemma_fundamental_div_mod, lemma_fundamental_div_mod_converse, lemma_mod_bound};
use crate::bitmanip::{bit_set, lemma_not_bit, BitManip};
use crate::grid::{lemma_box_offset, SudokuGrid, CellIter};

verus! {

/// Whether squares `i` and `j` of a board of side `rw` share a row, a column or a box of width `cw`.
pub open spec fn same_unit(cw: nat, rw: nat, i: int, j: int) -> bool {
    let (ri, ci, rj, cj) = (i / rw as int, i % rw as int, j / rw as int, j % rw as int);
    ri == rj || ci == cj || (ri / cw as int == rj / cw as int && ci / cw as int == cj / cw as int)
}

/// No digit appears twice in a row, a column or a box of the squares `s`.
pub open spec fn consistent_seq(s: Seq<u32>, cw: nat, rw: nat) -> bool {
    forall|i: int, j: int|
        0 <= i < s.len() && 0 <= j < s.len() && i != j && #[trigger] same_unit(cw, rw, i, j) && s[i]
            != 0 ==> #[trigger] s[i] != s[j]
}

/// No digit appears twice in a row, a column or a box.
pub open spec fn consistent(g: &SudokuGrid) -> bool {
    consistent_seq(g@, g.cw(), g.rw())
}

/// `sol` keeps every square of `g` before `from` and every digit of `g`, puts a digit of
/// `1..=rw` in every square from `from` on, and repeats no digit in a row, a column or a box.
pub open spec fn is_completion_from(g: &SudokuGrid, sol: Seq<u32>, from: int) -> bool {
    &&& sol.len() == g@.len()
    &&& forall|i: int| 0 <= i < sol.len() && (i < from || g@[i] != 0) ==> #[trigger] sol[i] == g@[i]
    &&& forall|i: int| from <= i < sol.len() ==> 1 <= #[trigger] sol[i] <= g.rw()
    &&& consistent_seq(sol, g.cw(), g.rw())
}

/// `a` and `b` agree before square `k`, and `a` holds the smaller value at `k`.
pub open spec fn less_at(a: Seq<u32>, b: Seq<u32>, k: int) -> bool {
    &&& 0 <= k < a.len()
    &&& k < b.len()
    &&& a[k] < b[k]
    &&& forall|i: int| 0 <= i < k ==> a[i] == b[i]
}

/// `a` comes no later than `b` when boards are compared square by square in index order.
pub open spec fn lex_le(a: Seq<u32>, b: Seq<u32>) -> bool {
    a == b || exists|k: int| #[trigger] less_at(a, b, k)
}

/// Every square holds a digit.
pub open spec fn filled(s: Seq<u32>) -> bool {
    forall|i: int| 0 <= i < s.len() ==> #[trigger] s[i] != 0
}

/// Every digit of `before` is still in place in `after`.
pub open spec fn keeps_digits(before: Seq<u32>, after: Seq<u32>) -> bool {
    &&& before.len() == after.len()
    &&& forall|i: int| 0 <= i < before.len() && #[trigger] before[i] != 0 ==> after[i] == before[i]
}

/// Whether digit `d` appears in the row, the column or the box of square `i`.
pub open spec fn excluded(g: &SudokuGrid, i: int, d: u32) -> bool {
    let (r, c) = (i / g.rw() as int, i % g.rw() as int);
    g.row_seq(r).contains(d) || g.col_seq(c).contains(d) || g.box_seq(r, c).contains(d)
}

/// The outcome of a search.
#[derive(Debug, PartialEq, Eq, Structural)]
pub enum SolveState {
    Solved,
    UnSolved,
}

impl SolveState {
    /// Whether the search filled the board.
    pub fn is_solved(&self) -> (r: bool)
        ensures
            r == (*self is Solved),
    {
        matches!(self, SolveState::Solved)
    }
}

/// The value of square `j` appears in the row, the column or the box of any square `i` that
/// shares a unit with it.
pub proof fn lemma_unit_in_views(g: &SudokuGrid, i: int, j: int)
    requires
        g.wf(),
        0 <= i < g@.len(),
        0 <= j < g@.len(),
        same_unit(g.cw(), g.rw(), i, j),
    ensures
        excluded(g, i, g@[j]),
{
    let cw = g.cw() as int;
    let rw = g.rw() as int;
    assert(rw > 0) by (nonlinear_arith)
        requires
            0 <= i < rw * rw,
            rw >= 0,
    ;
    assert(cw > 0) by (nonlinear_arith)
        requires
            rw == cw * cw,
            rw > 0,
            cw >= 0,
    ;
    lemma_fundamental_div_mod(j, rw);
    lemma_mod_bound(j, rw);
    lemma_mod_bound(i, rw);
    let (ri, ci, rj, cj) = (i / rw, i % rw, j / rw, j % rw);
    assert(0 <= ri < rw && 0 <= rj < rw) by {
        lemma_fundamental_div_mod(i, rw);
        assert(0 <= ri < rw) by (nonlinear_arith)
            requires
                i == rw * ri + ci,
                0 <= ci < rw,
                0 <= i < rw * rw,
        ;
        assert(0 <= rj < rw) by (nonlinear_arith)
            requires
                j == rw * rj + cj,
                0 <= cj < rw,
                0 <= j < rw * rw,
        ;
    }
    assert(j == rj * rw + cj) by (nonlinear_arith)
        requires
            j == rw * rj + cj,
    ;
    if ri == rj {
        assert(g.row_seq(ri)[cj] == g@[j]);
    } else if ci == cj {
        assert(g.col_seq(ci)[rj] == g@[j]);
    } else {
        lemma_mod_bound(rj, cw);
        lemma_mod_bound(cj, cw);
        lemma_fundamental_div_mod(rj, cw);
        lemma_fundamental_div_mod(cj, cw);
        let a = rj % cw;
        let b = cj % cw;
        let k = a * cw + b;
        lemma_fundamental_div_mod_converse(k, cw, a, b);
        assert(0 <= k < cw * cw) by (nonlinear_arith)
            requires
                k == a * cw + b,
                0 <= a < cw,
                0 <= b < cw,
        ;
        assert((ri / cw) * cw + a == rj) by (nonlinear_arith)
            requires
                ri / cw == rj / cw,
                rj == cw * (rj / cw) + a,
        ;
        assert((ci / cw) * cw + b == cj) by (nonlinear_arith)
            requires
                ci / cw == cj / cw,
                cj == cw * (cj / cw) + b,
        ;
        assert(g.box_seq(ri, ci)[k] == g@[j]);
    }
}

/// A digit in the row, the column or the box of square `i` stands in a square that shares a
/// unit with `i`.
pub proof fn lemma_excluded_witness(g: &SudokuGrid, i: int, d: u32)
    requires
        g.wf(),
        0 <= i < g@.len(),
        excluded(g, i, d),
    ensures
        exists|j: int| 0 <= j < g@.len() && #[trigger] same_unit(g.cw(), g.rw(), i, j) && g@[j] == d,
{
    let cw = g.cw() as int;
    let rw = g.rw() as int;
    assert(rw > 0) by (nonlinear_arith)
        requires
            0 <= i < rw * rw,
            rw >= 0,
    ;
    assert(cw > 0) by (nonlinear_arith)
        requires
            rw == cw * cw,
            rw > 0,
            cw >= 0,
    ;
    lemma_fundamental_div_mod(i, rw);
    lemma_mod_bound(i, rw);
    let r = i / rw;
    let c = i % rw;
    assert(0 <= r < rw) by (nonlinear_arith)
        requires
            i == rw * r + c,
            0 <= c < rw,
            0 <= i < rw * rw,
    ;
    if g.row_seq(r).contains(d) {
        let a = choose|a: int| 0 <= a < g.row_seq(r).len() && #[trigger] g.row_seq(r)[a] == d;
        crate::grid::lemma_index_bound(r, a, rw);
        lemma_fundamental_div_mod_converse(r * rw + a, rw, r, a);
        assert(same_unit(g.cw(), g.rw(), i, r * rw + a));
    } else if g.col_seq(c).contains(d) {
        let a = choose|a: int| 0 <= a < g.col_seq(c).len() && #[trigger] g.col_seq(c)[a] == d;
        crate::grid::lemma_index_bound(a, c, rw);
        lemma_fundamental_div_mod_converse(a * rw + c, rw, a, c);
        assert(same_unit(g.cw(), g.rw(), i, a * rw + c));
    } else {
        let k = choose|k: int| 0 <= k < g.box_seq(r, c).len() && #[trigger] g.box_seq(r, c)[k] == d;
        lemma_box_offset(k, 0, cw);
        lemma_mod_bound(k, cw);
        lemma_box_offset(r, k / cw, cw);
        lemma_box_offset(c, k % cw, cw);
        let y = (r / cw) * cw + k / cw;
        let x = (c / cw) * cw + k % cw;
        let j = y * rw + x;
        crate::grid::lemma_index_bound(y, x, rw);
        lemma_fundamental_div_mod_converse(j, rw, y, x);
        lemma_fundamental_div_mod_converse(y, cw, r / cw, k / cw);
        lemma_fundamental_div_mod_converse(x, cw, c / cw, k % cw);
        assert(same_unit(g.cw(), g.rw(), i, j));
    }
}

/// Writing into an empty square a digit that its row, column and box lack keeps the board
/// consistent.
proof fn lemma_place_keeps_consistent(before: &SudokuGrid, after: &SudokuGrid, i: int, d: u32)
    requires
        before.wf(),
        0 <= i < before@.len(),
        before@[i] == 0,
        d != 0,
        !excluded(before, i, d),
        consistent(before),
        after@ == before@.update(i, d),
        after.cw() == before.cw(),
        after.rw() == before.rw(),
    ensures
        consistent(after),
{
    assert forall|p: int, q: int|
        0 <= p < after@.len() && 0 <= q < after@.len() && p != q && #[trigger] same_unit(
            after.cw(),
            after.rw(),
            p,
            q,
        ) && after@[p] != 0 implies #[trigger] after@[p] != after@[q] by {
        if p == i {
            lemma_unit_in_views(before, i, q);
        } else if q == i {
            assert(same_unit(before.cw(), before.rw(), q, p));
            lemma_unit_in_views(before, i, p);
        } else {
            assert(same_unit(before.cw(), before.rw(), p, q));
        }
    }
}

proof fn lemma_take_contains(s: Seq<u32>, k: int, d: u32)
    requires
        0 <= k < s.len(),
    ensures
        s.take(k + 1).contains(d) == (s.take(k).contains(d) || s[k] == d),
{
    if s.take(k + 1).contains(d) {
        let w = choose|w: int| 0 <= w < k + 1 && #[trigger] s.take(k + 1)[w] == d;
        if w < k {
            assert(s.take(k)[w] == d);
        }
    }
    if s.take(k).contains(d) {
        let w = choose|w: int| 0 <= w < k && #[trigger] s.take(k)[w] == d;
        assert(s.take(k + 1)[w] == d);
    }
    if s[k] == d {
        assert(s.take(k + 1)[k] == d);
    }
}

proof fn lemma_zero_bit(d: u32)
    requires
        d < 32,
    ensures
        !bit_set(0, d),
{
    assert(!((0u32 >> d) & 1u32 == 1u32)) by (bit_vector);
}

/// Sets in `mask` the bit of every value in `v`.
fn mark_all(mask: &mut u32, v: &Vec<u32>)
    requires
        forall|j: int| 0 <= j < v@.len() ==> #[trigger] v@[j] < 32,
    ensures
        forall|d: u32|
            d < 32 ==> #[trigger] bit_set(*final(mask), d) == (bit_set(*old(mask), d) || v@.contains(d)),
{
    let ghost m0 = *mask;
    let mut k: usize = 0;
    while k < v.len()
        invariant
            k <= v@.len(),
            forall|j: int| 0 <= j < v@.len() ==> #[trigger] v@[j] < 32,
            forall|d: u32|
                d < 32 ==> #[trigger] bit_set(*mask, d) == (bit_set(m0, d) || v@.take(k as int).contains(d)),
        decreases v@.len() - k,
    {
        mask.set_bit(v[k]);
        proof {
            assert forall|d: u32| d < 32 implies #[trigger] bit_set(*mask, d) == (bit_set(m0, d)
                || v@.take(k + 1).contains(d)) by {
                lemma_take_contains(v@, k as int, d);
            }
        }
        k = k + 1;
    }
    proof {
        assert(v@.take(v@.len() as int) =~= v@);
    }
}

/// Sets in `mask` the bit of every value that `it` still holds.
fn mark_cell(mask: &mut u32, it: &mut CellIter)
    requires
        forall|j: int| 0 <= j < old(it)@.len() ==> #[trigger] old(it)@[j] < 32,
    ensures
        forall|d: u32|
            d < 32 ==> #[trigger] bit_set(*final(mask), d) == (bit_set(*old(mask), d) || old(it)@.contains(d)),
{
    let ghost m0 = *mask;
    let ghost all = it@;
    loop
        invariant
            forall|j: int| 0 <= j < it@.len() ==> #[trigger] it@[j] < 32,
            forall|d: u32|
                d < 32 ==> (#[trigger] bit_set(*mask, d) || it@.contains(d)) == (bit_set(m0, d) || all.contains(d)),
        ensures
            it@.len() == 0,
        decreases it@.len(),
    {
        let ghost rest = it@;
        let ghost before = *mask;
        assert(forall|d: u32| d < 32 ==> (#[trigger] bit_set(before, d) || rest.contains(d)) == (bit_set(m0, d) || all.contains(d)));
        match it.next() {
            Some(n) => {
                mask.set_bit(n);
                proof {
                    assert forall|d: u32| d < 32 implies (#[trigger] bit_set(*mask, d) || it@.contains(d))
                        == (bit_set(m0, d) || all.contains(d)) by {
                        assert((bit_set(before, d) || rest.contains(d)) == (bit_set(m0, d) || all.contains(d)));
                        if rest.contains(d) && !it@.contains(d) {
                            let w = choose|w: int| 0 <= w < rest.len() && #[trigger] rest[w] == d;
                            if w > 0 {
                                assert(it@[w - 1] == d);
                            }
                        }
                        if it@.contains(d) {
                            let w = choose|w: int| 0 <= w < it@.len() && #[trigger] it@[w] == d;
                            assert(rest[w + 1] == d);
                        }
                        if n == d {
                            assert(rest[0] == d);
                        }

                    }
                }
            },
            None => {
                break;
            },
        }
    }
}

/// The digits that may go into square `tileno`: bit `d` of the result is set exactly when
/// `d` appears in none of the square's row, column and box.
pub fn possible(sudoku: &SudokuGrid, tileno: usize) -> (r: u32)
    requires
        sudoku.wf(),
        sudoku.rw() < 32,
        tileno < sudoku@.len(),
    ensures
        forall|d: u32| d < 32 ==> (#[trigger] bit_set(r, d) <==> !excluded(sudoku, tileno as int, d)),
{
    let rw = *sudoku.row_width();
    proof {
        assert(rw > 0) by (nonlinear_arith)
            requires
                tileno < rw * rw,
        ;
        lemma_fundamental_div_mod(tileno as int, rw as int);
        lemma_mod_bound(tileno as int, rw as int);
        assert(tileno / rw < rw) by (nonlinear_arith)
            requires
                tileno == rw * (tileno / rw) + tileno % rw,
                0 <= tileno % rw < rw,
                tileno < rw * rw,
        ;
    }
    let row = tileno / rw;
    let col = tileno % rw;
    let mut bad: u32 = 0;
    let rv = sudoku.iter_row(row);
    let cv = sudoku.iter_col(col);
    let mut it = sudoku.iter_cell(row, col);
    let ghost bv = it@;
    proof {
        let cw = sudoku.cw() as int;
        assert(cw > 0) by (nonlinear_arith)
            requires
                rw == cw * cw,
                rw > 0,
                cw >= 0,
        ;
        assert forall|j: int| 0 <= j < rv@.len() implies #[trigger] rv@[j] < 32 by {
            assert(0 <= row * rw + j < rw * rw) by (nonlinear_arith)
                requires
                    0 <= row < rw,
                    0 <= j < rw,
            ;
        }
        assert forall|j: int| 0 <= j < cv@.len() implies #[trigger] cv@[j] < 32 by {
            assert(0 <= j * rw + col < rw * rw) by (nonlinear_arith)
                requires
                    0 <= col < rw,
                    0 <= j < rw,
            ;
        }
        assert forall|k: int| 0 <= k < bv.len() implies #[trigger] bv[k] < 32 by {
            lemma_box_offset(k, 0, cw);
            lemma_mod_bound(k, cw);
            lemma_box_offset(row as int, k / cw, cw);
            lemma_box_offset(col as int, k % cw, cw);
            let a = (row as int / cw) * cw + k / cw;
            let b = (col as int / cw) * cw + k % cw;
            assert(0 <= a * rw + b < rw * rw) by (nonlinear_arith)
                requires
                    0 <= a < rw,
                    0 <= b < rw,
            ;
        }
    }
    mark_all(&mut bad, &rv);
    let ghost b1 = bad;
    mark_all(&mut bad, &cv);
    let ghost b2 = bad;
    mark_cell(&mut bad, &mut it);
    proof {
        assert forall|d: u32| d < 32 implies (#[trigger] bit_set(!bad, d)
            <==> !excluded(sudoku, tileno as int, d)) by {
            lemma_not_bit(bad, d);
            lemma_zero_bit(d);
            assert(bit_set(bad, d) == (bit_set(b2, d) || bv.contains(d)));
            assert(bit_set(b2, d) == (bit_set(b1, d) || cv@.contains(d)));
            assert(bit_set(b1, d) == (bit_set(0, d) || rv@.contains(d)));
        }
    }
    !bad
}

/// A sequence of `n` distinct values, each in `1..=n`, holds every value of `1..=n`.
proof fn lemma_pigeonhole(u: Seq<u32>, n: nat, d: u32)
    requires
        u.len() == n,
        u.no_duplicates(),
        forall|i: int| 0 <= i < u.len() ==> 1 <= #[trigger] u[i] <= n,
        1 <= d <= n,
    ensures
        u.contains(d),
{
    let t = u.map_values(|x: u32| x as int);
    assert forall|i: int, j: int| 0 <= i < t.len() && 0 <= j < t.len() && i != j implies t[i] != t[j] by {
        assert(u[i] != u[j]);
        assert(t[i] == u[i] as int && t[j] == u[j] as int);
    }
    assert(t.no_duplicates());
    t.unique_seq_to_set();
    vstd::set_lib::lemma_int_range(1, n as int + 1);
    let range = vstd::set_lib::set_int_range(1, n as int + 1);
    if !u.contains(d) {
        let smaller = range.remove(d as int);
        assert forall|x: int| t.to_set().contains(x) implies smaller.contains(x) by {
            let i = choose|i: int| 0 <= i < t.len() && #[trigger] t[i] == x;
            assert(t[i] == u[i] as int);
            assert(u[i] as int == x);
            if x == d as int {
                assert(u[i] == d);
            }
        }
        assert(range.contains(d as int));
        assert(smaller.len() == n - 1);
        vstd::seq_lib::seq_to_set_is_finite(t);
        vstd::set_lib::lemma_len_subset(t.to_set(), smaller);
        assert(t.len() == n);
        assert(false);
    }
}

/// The squares `idx(0), ..., idx(u.len() - 1)` are distinct, pairwise share a unit, and hold
/// `u`: on a filled, consistent board `u` repeats no value.
proof fn lemma_unit_distinct(g: &SudokuGrid, u: Seq<u32>, idx: spec_fn(int) -> int)
    requires
        g.wf(),
        filled(g@),
        consistent(g),
        forall|a: int| 0 <= a < u.len() ==> 0 <= #[trigger] idx(a) < g@.len() && u[a] == g@[idx(a)],
        forall|a: int, b: int|
            0 <= a < u.len() && 0 <= b < u.len() && a != b ==> #[trigger] idx(a) != #[trigger] idx(b)
                && same_unit(g.cw(), g.rw(), idx(a), idx(b)),
    ensures
        u.no_duplicates(),
{
    assert forall|a: int, b: int| 0 <= a < u.len() && 0 <= b < u.len() && a != b implies u[a] != u[b] by {
        assert(idx(a) != idx(b) && same_unit(g.cw(), g.rw(), idx(a), idx(b)));
        assert(g@[idx(a)] != 0);
        assert(g@[idx(a)] != g@[idx(b)]);
    }
}

/// On a board with every square filled and no digit repeated in a row, column or box (what
/// `solve` leaves when it succeeds on a consistent board), every row, column and box holds
/// each digit `1..=rw` exactly once.
pub proof fn lemma_solved_units_complete(g: &SudokuGrid, r: int, c: int, d: u32)
    requires
        g.wf(),
        filled(g@),
        consistent(g),
        0 <= r < g.rw(),
        0 <= c < g.rw(),
        1 <= d <= g.rw(),
    ensures
        g.row_seq(r).no_duplicates(),
        g.row_seq(r).contains(d),
        g.col_seq(c).no_duplicates(),
        g.col_seq(c).contains(d),
        g.box_seq(r, c).no_duplicates(),
        g.box_seq(r, c).contains(d),
{
    let cw = g.cw() as int;
    let rw = g.rw() as int;
    assert(cw > 0) by (nonlinear_arith)
        requires
            rw == cw * cw,
            0 <= r < rw,
            cw >= 0,
    ;
    let row = g.row_seq(r);
    let col = g.col_seq(c);
    let bx = g.box_seq(r, c);
    let ri = |a: int| r * rw + a;
    let ci = |a: int| a * rw + c;
    let bi = |k: int| ((r / cw) * cw + k / cw) * rw + (c / cw) * cw + k % cw;
    assert forall|a: int| 0 <= a < rw implies 0 <= #[trigger] ri(a) < g@.len() && ri(a) / rw == r
        && ri(a) % rw == a by {
        crate::grid::lemma_index_bound(r, a, rw);
        lemma_fundamental_div_mod_converse(ri(a), rw, r, a);
    }
    assert forall|a: int| 0 <= a < rw implies 0 <= #[trigger] ci(a) < g@.len() && ci(a) / rw == a
        && ci(a) % rw == c by {
        crate::grid::lemma_index_bound(a, c, rw);
        lemma_fundamental_div_mod_converse(ci(a), rw, a, c);
    }
    assert forall|k: int| 0 <= k < cw * cw implies {
        &&& 0 <= #[trigger] bi(k) < g@.len()
        &&& bi(k) / rw == (r / cw) * cw + k / cw
        &&& bi(k) % rw == (c / cw) * cw + k % cw
        &&& (bi(k) / rw) / cw == r / cw
        &&& (bi(k) % rw) / cw == c / cw
    } by {
        lemma_box_offset(k, 0, cw);
        lemma_mod_bound(k, cw);
        lemma_box_offset(r, k / cw, cw);
        lemma_box_offset(c, k % cw, cw);
        let y = (r / cw) * cw + k / cw;
        let x = (c / cw) * cw + k % cw;
        crate::grid::lemma_index_bound(y, x, rw);
        lemma_fundamental_div_mod_converse(bi(k), rw, y, x);
        lemma_fundamental_div_mod_converse(y, cw, r / cw, k / cw);
        lemma_fundamental_div_mod_converse(x, cw, c / cw, k % cw);
    }
    assert forall|a: int, b: int| 0 <= a < rw && 0 <= b < rw && a != b implies #[trigger] ri(a)
        != #[trigger] ri(b) && same_unit(g.cw(), g.rw(), ri(a), ri(b)) by {}
    assert forall|a: int, b: int| 0 <= a < rw && 0 <= b < rw && a != b implies #[trigger] ci(a)
        != #[trigger] ci(b) && same_unit(g.cw(), g.rw(), ci(a), ci(b)) by {}
    assert forall|a: int, b: int| 0 <= a < cw * cw && 0 <= b < cw * cw && a != b implies #[trigger] bi(a)
        != #[trigger] bi(b) && same_unit(g.cw(), g.rw(), bi(a), bi(b)) by {
        lemma_fundamental_div_mod(a, cw);
        lemma_fundamental_div_mod(b, cw);
        if bi(a) == bi(b) {
            assert(a / cw == b / cw && a % cw == b % cw);
            assert(a == b);
        }
    }
    lemma_unit_distinct(g, row, ri);
    lemma_unit_distinct(g, col, ci);
    lemma_unit_distinct(g, bx, bi);
    assert forall|i: int| 0 <= i < row.len() implies 1 <= #[trigger] row[i] <= rw by {
        assert(g@[ri(i)] != 0);
    }
    assert forall|i: int| 0 <= i < col.len() implies 1 <= #[trigger] col[i] <= rw by {
        assert(g@[ci(i)] != 0);
    }
    assert forall|i: int| 0 <= i < bx.len() implies 1 <= #[trigger] bx[i] <= rw by {
        assert(g@[bi(i)] != 0);
    }
    lemma_pigeonhole(row, g.rw(), d);
    lemma_pigeonhole(col, g.rw(), d);
    lemma_pigeonhole(bx, g.rw(), d);
}

/// The first empty square at or after `from`, if any.
fn next_empty(sudoku: &SudokuGrid, from: usize) -> (r: Option<usize>)
    requires
        from <= sudoku@.len(),
    ensures
        r matches Some(n) ==> from <= n < sudoku@.len() && sudoku@[n as int] == 0,
        forall|j: int|
            from <= j < sudoku@.len() && (r matches Some(n) ==> j < n) ==> #[trigger] sudoku@[j] != 0,
{
    let tiles = sudoku.tiles();
    let mut i: usize = from;
    while i < tiles.len()
        invariant
            tiles@ == sudoku@,
            from <= i <= tiles@.len(),
            forall|j: int| from <= j < i ==> #[trigger] sudoku@[j] != 0,
        decreases tiles@.len() - i,
    {
        if tiles[i] == 0 {
            return Some(i);
        }
        i = i + 1;
    }
    None
}

/// Fills the empty squares from `tileno` on by backtracking: tries each digit that square
/// `tileno` admits, in ascending order, and goes on to the next empty square. Squares before
/// `tileno` and digits already placed are never written. On failure the board is left as it
/// was; on success it holds the first completion in index order.
pub fn solve_rec(sudoku: &mut SudokuGrid, tileno: usize) -> (r: SolveState)
    requires
        old(sudoku).wf(),
        old(sudoku).rw() < 32,
        tileno < old(sudoku)@.len(),
        old(sudoku)@[tileno as int] == 0,
    ensures
        final(sudoku).wf(),
        final(sudoku).cw() == old(sudoku).cw(),
        final(sudoku).rw() == old(sudoku).rw(),
        final(sudoku)@.len() == old(sudoku)@.len(),
        forall|i: int|
            0 <= i < old(sudoku)@.len() && (i < tileno || old(sudoku)@[i] != 0) ==> #[trigger] final(sudoku)@[i]
                == old(sudoku)@[i],
        r is UnSolved ==> final(sudoku)@ == old(sudoku)@,
        r is Solved ==> forall|i: int| tileno <= i < old(sudoku)@.len() ==> #[trigger] final(sudoku)@[i] != 0,
        r is Solved ==> forall|i: int, j: int|
            0 <= i < old(sudoku)@.len() && 0 <= j < old(sudoku)@.len() && i != j && tileno <= i
                && old(sudoku)@[i] == 0 && #[trigger] same_unit(old(sudoku).cw(), old(sudoku).rw(), i, j)
                ==> #[trigger] final(sudoku)@[i] != final(sudoku)@[j],
        r is Solved && consistent(old(sudoku)) ==> consistent(final(sudoku)),
        r is Solved && consistent(old(sudoku)) ==> is_completion_from(old(sudoku), final(sudoku)@, tileno as int),
        (exists|sol: Seq<u32>| is_completion_from(old(sudoku), sol, tileno as int)) ==> r is Solved,
        r is Solved ==> forall|sol: Seq<u32>|
            is_completion_from(old(sudoku), sol, tileno as int) ==> #[trigger] lex_le(final(sudoku)@, sol),
    decreases old(sudoku)@.len() - tileno,
{
    let ghost g0 = *sudoku;
    let tries = possible(sudoku, tileno);
    let next_tile = next_empty(sudoku, tileno + 1);
    let rw = *sudoku.row_width() as u32;
    let mut num: u32 = 1;
    while num <= rw
        invariant
            g0 == *old(sudoku),
            sudoku.wf(),
            sudoku.cw() == g0.cw(),
            sudoku.rw() == g0.rw(),
            rw == g0.rw(),
            rw < 32,
            1 <= num <= rw + 1,
            sudoku@ == g0@.update(tileno as int, sudoku@[tileno as int]),
            tileno < g0@.len(),
            g0.wf(),
            g0@[tileno as int] == 0,
            next_tile matches Some(n) ==> tileno < n < g0@.len() && g0@[n as int] == 0,
            forall|j: int|
                tileno < j < g0@.len() && (next_tile matches Some(n) ==> j < n) ==> #[trigger] g0@[j] != 0,
            forall|d: u32| d < 32 ==> (#[trigger] bit_set(tries, d) <==> !excluded(&g0, tileno as int, d)),
            forall|sol: Seq<u32>| #[trigger] is_completion_from(&g0, sol, tileno as int) ==> num <= sol[tileno as int],
        decreases rw + 1 - num,
    {
        if tries.test_bit(num) {
            sudoku.set(tileno, num);
            let ghost mid = *sudoku;
            proof {
                assert(mid@ =~= g0@.update(tileno as int, num));
                assert(bit_set(tries, num));
                if consistent(&g0) {
                    lemma_place_keeps_consistent(&g0, &mid, tileno as int, num);
                }
                assert forall|j: int| 0 <= j < g0@.len() && j != tileno && #[trigger] same_unit(
                    g0.cw(),
                    g0.rw(),
                    tileno as int,
                    j,
                ) implies g0@[j] != num by {
                    lemma_unit_in_views(&g0, tileno as int, j);
                }
            }
            match next_tile {
                Some(nextno) => {
                    proof {
                        assert(sudoku@.len() == g0@.len());
                        assert(sudoku@.len() - nextno < g0@.len() - tileno);
                        assert forall|sol: Seq<u32>| #[trigger] is_completion_from(&g0, sol, tileno as int)
                            && sol[tileno as int] == num implies is_completion_from(&mid, sol, nextno as int) by {
                            assert forall|i: int|
                                0 <= i < sol.len() && (i < nextno || mid@[i] != 0) implies #[trigger] sol[i]
                                == mid@[i] by {
                                if i != tileno && i > tileno && i < nextno {
                                    assert(g0@[i] != 0);
                                }
                            }
                        }
                    }
                    let state = solve_rec(sudoku, nextno);
                    proof {
                        if !(state is Solved) {
                            assert forall|sol: Seq<u32>| #[trigger] is_completion_from(&g0, sol, tileno as int)
                                implies num + 1 <= sol[tileno as int] by {
                                if sol[tileno as int] == num {
                                    assert(is_completion_from(&mid, sol, nextno as int));
                                }
                            }
                        }
                    }
                    if state.is_solved() {
                        proof {
                            assert forall|i: int|
                                0 <= i < g0@.len() && (i < tileno || g0@[i] != 0) implies #[trigger] sudoku@[i]
                                == g0@[i] by {
                                assert(mid@[i] == g0@[i]);
                            }
                            assert forall|i: int| tileno <= i < g0@.len() implies #[trigger] sudoku@[i] != 0 by {
                                if i < nextno {
                                    assert(mid@[i] != 0);
                                }
                            }
                            assert forall|i: int, j: int|
                                0 <= i < g0@.len() && 0 <= j < g0@.len() && i != j && tileno <= i && g0@[i] == 0
                                    && #[trigger] same_unit(g0.cw(), g0.rw(), i, j) implies #[trigger] sudoku@[i]
                                != sudoku@[j] by {
                                if i == tileno {
                                    if j >= nextno && mid@[j] == 0 {
                                        assert(same_unit(g0.cw(), g0.rw(), j, i));
                                    } else {
                                        assert(mid@[j] == g0@[j]);
                                    }
                                } else {
                                    assert(mid@[i] == 0);
                                }
                            }
                            assert forall|sol: Seq<u32>| is_completion_from(&g0, sol, tileno as int) implies #[trigger] lex_le(
                                sudoku@,
                                sol,
                            ) by {
                                if sol[tileno as int] != num {
                                    assert(less_at(sudoku@, sol, tileno as int));
                                } else {
                                    assert(is_completion_from(&mid, sol, nextno as int));
                                }
                            }
                            if consistent(&g0) {
                                assert(is_completion_from(&g0, sudoku@, tileno as int));
                            }
                        }
                        return SolveState::Solved;
                    }
                },
                None => {
                    proof {
                        assert forall|sol: Seq<u32>| is_completion_from(&g0, sol, tileno as int) implies #[trigger] lex_le(
                            sudoku@,
                            sol,
                        ) by {
                            if sol[tileno as int] != num {
                                assert(less_at(sudoku@, sol, tileno as int));
                            } else {
                                assert forall|i: int| 0 <= i < sol.len() implies sol[i] == sudoku@[i] by {
                                    if i > tileno {
                                        assert(g0@[i] != 0);
                                    }
                                }
                                assert(sol =~= sudoku@);
                            }
                        }
                        assert forall|i: int| tileno <= i < g0@.len() implies #[trigger] sudoku@[i] != 0 by {
                            if i != tileno {
                                assert(g0@[i] != 0);
                            }
                        }
                        if consistent(&g0) {
                            assert(is_completion_from(&g0, sudoku@, tileno as int));
                        }
                    }
                    return SolveState::Solved;
                },
            }
        } else {
            proof {
                assert forall|sol: Seq<u32>| #[trigger] is_completion_from(&g0, sol, tileno as int) implies num
                    + 1 <= sol[tileno as int] by {
                    if sol[tileno as int] == num {
                        assert(!bit_set(tries, num));
                        lemma_excluded_witness(&g0, tileno as int, num);
                        let j = choose|j: int|
                            0 <= j < g0@.len() && #[trigger] same_unit(g0.cw(), g0.rw(), tileno as int, j)
                                && g0@[j] == num;
                        assert(sol[j] == num);
                        assert(sol[tileno as int] != 0);
                        assert(sol[tileno as int] != sol[j]);
                    }
                }
            }
        }
        num = num + 1;
    }
    proof {
        assert forall|sol: Seq<u32>| #[trigger] is_completion_from(&g0, sol, tileno as int) implies false by {
            assert(sol[tileno as int] <= g0.rw());
        }
    }
    sudoku.set(tileno, 0);
    proof {
        assert(sudoku@ =~= g0@);
    }
    SolveState::UnSolved
}

/// Searches for a way to fill every empty square so that no row, column or box repeats a digit.
/// On success the board holds the first such completion in index order; on failure it is left
/// as it was. A full board is reported solved at once.
pub fn solve(sudoku: &mut SudokuGrid) -> (r: SolveState)
    requires
        old(sudoku).wf(),
        filled(old(sudoku)@) || old(sudoku).rw() < 32,
    ensures
        final(sudoku).wf(),
        final(sudoku).cw() == old(sudoku).cw(),
        final(sudoku).rw() == old(sudoku).rw(),
        r is UnSolved ==> final(sudoku)@ == old(sudoku)@,
        r is Solved ==> filled(final(sudoku)@) && keeps_digits(old(sudoku)@, final(sudoku)@),
        r is Solved ==> forall|i: int, j: int|
            0 <= i < old(sudoku)@.len() && 0 <= j < old(sudoku)@.len() && i != j && old(sudoku)@[i] == 0
                && #[trigger] same_unit(old(sudoku).cw(), old(sudoku).rw(), i, j) ==> #[trigger] final(sudoku)@[i]
                != final(sudoku)@[j],
        r is Solved && consistent(old(sudoku)) ==> consistent(final(sudoku)),
        r is Solved && consistent(old(sudoku)) ==> is_completion_from(old(sudoku), final(sudoku)@, 0),
        filled(old(sudoku)@) ==> r is Solved && final(sudoku)@ == old(sudoku)@,
        (exists|sol: Seq<u32>| is_completion_from(old(sudoku), sol, 0)) ==> r is Solved,
        r is Solved ==> forall|sol: Seq<u32>|
            is_completion_from(old(sudoku), sol, 0) ==> #[trigger] lex_le(final(sudoku)@, sol),
{
    let ghost g0 = *sudoku;
    match next_empty(sudoku, 0) {
        Some(first_zero) => {
            proof {
                assert forall|sol: Seq<u32>| #[trigger] is_completion_from(&g0, sol, 0) implies is_completion_from(
                    &g0,
                    sol,
                    first_zero as int,
                ) by {
                    assert forall|i: int|
                        0 <= i < sol.len() && (i < first_zero || g0@[i] != 0) implies #[trigger] sol[i] == g0@[i] by {
                        if i < first_zero {
                            assert(g0@[i] != 0);
                        }
                    }
                }
            }
            let r = solve_rec(sudoku, first_zero);
            proof {
                if r is Solved {
                    assert forall|i: int| 0 <= i < sudoku@.len() implies #[trigger] sudoku@[i] != 0 by {
                        if i < first_zero {
                            assert(g0@[i] != 0);
                        }
                    }
                }
                if r is Solved && consistent(&g0) {
                    assert(is_completion_from(&g0, sudoku@, first_zero as int));
                    assert forall|i: int| 0 <= i < sudoku@.len() && (i < 0 || g0@[i] != 0) implies #[trigger] sudoku@[i]
                        == g0@[i] by {}
                }
                assert forall|i: int, j: int|
                    0 <= i < g0@.len() && 0 <= j < g0@.len() && i != j && g0@[i] == 0 && #[trigger] same_unit(
                        g0.cw(),
                        g0.rw(),
                        i,
                        j,
                    ) && r is Solved implies #[trigger] sudoku@[i] != sudoku@[j] by {
                    if i < first_zero {
                        assert(g0@[i] != 0);
                    }
                }
            }
            r
        },
        None => {
            proof {
                assert forall|sol: Seq<u32>| is_completion_from(&g0, sol, 0) implies #[trigger] lex_le(sudoku@, sol) by {
                    assert(sol =~= sudoku@);
                }
            }
            SolveState::Solved
        },
    }
}

} // verus!
