//! Saddle stitch imposition: all sheets nested inside one another.

use vstd::prelude::*;

use crate::imposition::grid::{calculate_saddle_stitch_grid, grid_cols, grid_rows, lemma_grid_rows_spec};

verus! {

// ---------------------------------------------------------------------------
// The model: which page every slot of every side shows.
// ---------------------------------------------------------------------------

/// `a / b` rounded up.
pub open spec fn div_ceil(a: nat, b: nat) -> nat {
    if a % b == 0 {
        a / b
    } else {
        a / b + 1
    }
}

/// Number of sides: enough to hold every page at `ss_per_sheet(p)` pages a
/// side (the slots that whole pairs fill: all of them for an even number of
/// columns, all but the last column otherwise), rounded up to an even count
/// so that every sheet has a front and a back.
pub open spec fn ss_total_sides(n: nat, p: nat) -> nat {
    let m = div_ceil(n, ss_per_sheet(p));
    if m % 2 == 0 {
        m
    } else {
        m + 1
    }
}

/// Pair slots on all sides together.
pub open spec fn ss_initial_slots(n: nat, p: nat) -> nat {
    ss_total_sides(n, p) * ss_per_sheet(p)
}

/// Slot count after dropping whole groups of four blank pages from the
/// nesting.
pub open spec fn ss_adjusted(n: nat, p: nat) -> int {
    let i = ss_initial_slots(n, p) as int;
    i - ((i - n) / 4) * 4
}

/// Number of nested page pairs.
pub open spec fn ss_num_pairs(n: nat, p: nat) -> int {
    ss_adjusted(n, p) / 2
}

/// Number of sheets (front and back).
pub open spec fn ss_sheets(n: nat, p: nat) -> nat {
    ss_total_sides(n, p) / 2
}

/// Page pairs per row of the grid.
pub open spec fn ss_pairs_per_row(p: nat) -> nat {
    grid_cols(p) / 2
}

/// Pair positions in one row (front and back alternating).
pub open spec fn ss_row_width(p: nat) -> nat {
    2 * ss_pairs_per_row(p)
}

/// Pairs consumed by one sheet, which is also the number of slots of a side
/// that pairs fill.
pub open spec fn ss_per_sheet(p: nat) -> nat {
    ss_row_width(p) * grid_rows(p)
}

/// Whether the rows of the back side are placed bottom to top.
pub open spec fn ss_reverse_rows(n: nat, p: nat) -> bool {
    p > 4 && ss_pairs_per_row(p) == 1 && ss_num_pairs(n, p) >= ss_per_sheet(p)
}

/// A page number past the last page is a blank (0).
pub open spec fn blank_past(n: nat, v: int) -> int {
    if v <= n {
        v
    } else {
        0
    }
}

/// Page on the left (`right == false`) or right of nesting pair `g`:
/// even pairs are `(a - g, g + 1)`, odd pairs `(g + 1, a - g)`, where `a` is
/// the adjusted page count.
pub open spec fn pair_page(n: nat, a: int, g: int, right: bool) -> int {
    let outer = a - g;
    let inner = g + 1;
    if (g % 2 == 0) != right {
        blank_past(n, outer)
    } else {
        blank_past(n, inner)
    }
}

/// Pair index that front slot `k` of sheet `s` shows.
pub open spec fn front_pair(p: nat, s: int, k: int) -> int {
    let c = k % (grid_cols(p) as int);
    s * ss_per_sheet(p) + (k / (grid_cols(p) as int)) * ss_row_width(p) + (c - c % 2)
}

/// Row (in placement order) that back slot `k` belongs to.
pub open spec fn back_row(n: nat, p: nat, k: int) -> int {
    let br = k / (grid_cols(p) as int);
    if ss_reverse_rows(n, p) {
        grid_rows(p) - 1 - br
    } else {
        br
    }
}

/// Pair index that back slot `k` of sheet `s` shows: within a row the back
/// pairs run right to left.
pub open spec fn back_pair(n: nat, p: nat, s: int, k: int) -> int {
    let c = k % (grid_cols(p) as int);
    s * ss_per_sheet(p) + back_row(n, p, k) * ss_row_width(p) + (ss_row_width(p) - 1 - (c
        - c % 2))
}

/// Page shown by a slot whose pair index is `g` and whose column is `c`.
pub open spec fn slot_page(n: nat, p: nat, g: int, c: int) -> int {
    if c < ss_row_width(p) && g < ss_num_pairs(n, p) {
        pair_page(n, ss_adjusted(n, p), g, c % 2 == 1)
    } else {
        0
    }
}

/// Page in front slot `k` of sheet `s`.
pub open spec fn front_slot(n: nat, p: nat, s: int, k: int) -> int {
    slot_page(n, p, front_pair(p, s, k), k % (grid_cols(p) as int))
}

/// Page in back slot `k` of sheet `s`.
pub open spec fn back_slot(n: nat, p: nat, s: int, k: int) -> int {
    slot_page(n, p, back_pair(n, p, s, k), k % (grid_cols(p) as int))
}

/// Front side of sheet `s`.
pub open spec fn ss_front(n: nat, p: nat, s: int) -> Seq<usize> {
    Seq::new(p, |k: int| front_slot(n, p, s, k) as usize)
}

/// Back side of sheet `s`.
pub open spec fn ss_back(n: nat, p: nat, s: int) -> Seq<usize> {
    Seq::new(p, |k: int| back_slot(n, p, s, k) as usize)
}

/// Sides of the first `s` sheets; a back identical to its front is left out.
pub open spec fn ss_sides_upto(n: nat, p: nat, s: nat) -> Seq<Seq<usize>>
    decreases s,
{
    if s == 0 {
        Seq::empty()
    } else {
        let prev = ss_sides_upto(n, p, (s - 1) as nat);
        let f = ss_front(n, p, s - 1);
        let b = ss_back(n, p, s - 1);
        if b == f {
            prev.push(f)
        } else {
            prev.push(f).push(b)
        }
    }
}

/// The saddle stitch ordering of `n` pages, `p` per side (no sides for
/// fewer than two pages per side).
pub open spec fn saddle_stitch_order(n: nat, p: nat) -> Seq<Seq<usize>> {
    if p < 2 {
        Seq::empty()
    } else {
        ss_sides_upto(n, p, ss_sheets(n, p))
    }
}

/// The inputs whose slot count fits in a `usize`.
pub open spec fn ss_fits(n: nat, p: nat) -> bool {
    p < 2 || ss_initial_slots(n, p) <= usize::MAX
}

// ---------------------------------------------------------------------------
// Arithmetic facts about slots and pair indices.
// ---------------------------------------------------------------------------

/// `a * w + b` with `0 <= b < w` determines `a` and `b`.
proof fn lemma_decompose(a: int, b: int, a2: int, b2: int, w: int)
    requires
        w > 0,
        0 <= b < w,
        0 <= b2 < w,
        a * w + b == a2 * w + b2,
    ensures
        a == a2,
        b == b2,
{
    vstd::arithmetic::div_mod::lemma_fundamental_div_mod_converse(a * w + b, w, a, b);
    vstd::arithmetic::div_mod::lemma_fundamental_div_mod_converse(a2 * w + b2, w, a2, b2);
}

/// Slot `row * cols + c` lies in row `row`, column `c`.
proof fn lemma_slot_coords(row: int, c: int, cols: int)
    requires
        cols > 0,
        0 <= c < cols,
    ensures
        (row * cols + c) / cols == row,
        (row * cols + c) % cols == c,
{
    vstd::arithmetic::div_mod::lemma_fundamental_div_mod_converse(row * cols + c, cols, row, c);
}

/// The grid facts the placement relies on.
proof fn lemma_grid_facts(p: nat)
    requires
        p >= 1,
    ensures
        grid_rows(p) >= 1,
        grid_cols(p) >= 1,
        grid_rows(p) * grid_cols(p) == p,
        ss_row_width(p) <= grid_cols(p),
        ss_row_width(p) % 2 == 0,
        ss_per_sheet(p) == ss_row_width(p) * grid_rows(p),
        ss_per_sheet(p) <= p,
        p >= 2 ==> grid_cols(p) >= 2 && ss_row_width(p) >= 2 && ss_per_sheet(p) >= 2,
        grid_cols(p) % 2 == 0 ==> ss_row_width(p) == grid_cols(p) && ss_per_sheet(p) == p,
{
    lemma_grid_rows_spec(p);
    let r = grid_rows(p);
    let c = grid_cols(p);
    if c == 0 {
        assert(r * c == 0) by (nonlinear_arith)
            requires
                c == 0,
        ;
    }
    assert(ss_row_width(p) * r <= c * r) by (nonlinear_arith)
        requires
            ss_row_width(p) <= c,
    ;
    assert(c * r == r * c) by (nonlinear_arith);
    if p >= 2 && c < 2 {
        assert(r * c <= 1) by (nonlinear_arith)
            requires
                r <= c,
                c < 2,
        ;
    }
    if p >= 2 {
        assert(ss_row_width(p) * r >= 2) by (nonlinear_arith)
            requires
                ss_row_width(p) >= 2,
                r >= 1,
        ;
    }
}

/// With at least two pages per side, pairs fill between 2 and `p` slots of
/// a side, and every slot when the grid has an even number of columns.
pub proof fn lemma_side_capacity(p: nat)
    requires
        p >= 2,
    ensures
        2 <= ss_per_sheet(p) <= p,
        grid_cols(p) % 2 == 0 ==> ss_per_sheet(p) == p,
{
    lemma_grid_facts(p);
}

/// Slot `k` lies in a row below `grid_rows(p)`.
proof fn lemma_slot_row_bound(p: nat, k: int)
    requires
        p >= 1,
        0 <= k < p,
    ensures
        0 <= k / (grid_cols(p) as int) < grid_rows(p),
        0 <= k % (grid_cols(p) as int) < grid_cols(p),
{
    lemma_grid_facts(p);
    let cols = grid_cols(p) as int;
    let rows = grid_rows(p) as int;
    vstd::arithmetic::div_mod::lemma_fundamental_div_mod(k, cols);
    let q = k / cols;
    let r = k % cols;
    if q >= rows {
        assert(q * cols >= rows * cols) by (nonlinear_arith)
            requires
                q >= rows,
                cols >= 1,
        ;
        assert(cols * q == q * cols) by (nonlinear_arith);
    }
    if q < 0 {
        assert(q * cols <= -cols) by (nonlinear_arith)
            requires
                q < 0,
                cols >= 1,
        ;
        assert(cols * q == q * cols) by (nonlinear_arith);
    }
}

/// Which front slots show the pair at position `pos` of row `row`.
proof fn lemma_front_hit(p: nat, s: int, k: int, row: int, pos: int)
    requires
        p >= 1,
        0 <= k < p,
        0 <= row,
        0 <= pos < ss_row_width(p),
        k % (grid_cols(p) as int) < ss_row_width(p),
    ensures
        front_pair(p, s, k) == s * ss_per_sheet(p) + row * ss_row_width(p) + pos <==> (pos % 2
            == 0 && (k == row * grid_cols(p) + pos || k == row * grid_cols(p) + pos + 1)),
{
    lemma_grid_facts(p);
    lemma_slot_row_bound(p, k);
    let cols = grid_cols(p) as int;
    let w = ss_row_width(p) as int;
    let c = k % cols;
    let kr = k / cols;
    vstd::arithmetic::div_mod::lemma_fundamental_div_mod(k, cols);
    assert(k == kr * cols + c) by (nonlinear_arith)
        requires
            k == cols * kr + c,
    ;
    if front_pair(p, s, k) == s * ss_per_sheet(p) + row * w + pos {
        lemma_decompose(kr, c - c % 2, row, pos, w);
    }
    if pos % 2 == 0 && (k == row * cols + pos || k == row * cols + pos + 1) {
        if k == row * cols + pos {
            lemma_slot_coords(row, pos, cols);
        } else {
            lemma_slot_coords(row, pos + 1, cols);
        }
    }
}

/// Which back slots show the pair at position `pos` of row `row`.
proof fn lemma_back_hit(n: nat, p: nat, s: int, k: int, row: int, pos: int)
    requires
        p >= 1,
        0 <= k < p,
        0 <= row < grid_rows(p),
        0 <= pos < ss_row_width(p),
        k % (grid_cols(p) as int) < ss_row_width(p),
    ensures
        back_pair(n, p, s, k) == s * ss_per_sheet(p) + row * ss_row_width(p) + pos <==> (pos % 2
            == 1 && (k == back_row(n, p, row * grid_cols(p)) * grid_cols(p) + (ss_row_width(p)
            - 1 - pos) || k == back_row(n, p, row * grid_cols(p)) * grid_cols(p) + (ss_row_width(
            p) - 1 - pos) + 1)),
{
    lemma_grid_facts(p);
    lemma_slot_row_bound(p, k);
    let cols = grid_cols(p) as int;
    let rows = grid_rows(p) as int;
    let w = ss_row_width(p) as int;
    let c = k % cols;
    let kr = k / cols;
    vstd::arithmetic::div_mod::lemma_fundamental_div_mod(k, cols);
    assert(k == kr * cols + c) by (nonlinear_arith)
        requires
            k == cols * kr + c,
    ;
    lemma_slot_coords(row, 0, cols);
    let br0 = back_row(n, p, row * cols);
    let brk = back_row(n, p, k);
    if back_pair(n, p, s, k) == s * ss_per_sheet(p) + row * w + pos {
        lemma_decompose(brk, w - 1 - (c - c % 2), row, pos, w);
    }
    if pos % 2 == 1 && (k == br0 * cols + (w - 1 - pos) || k == br0 * cols + (w - 1 - pos) + 1) {
        if k == br0 * cols + (w - 1 - pos) {
            lemma_slot_coords(br0, w - 1 - pos, cols);
        } else {
            lemma_slot_coords(br0, w - pos, cols);
        }
    }
}

/// Pair indices of a sheet lie in `[s * per_sheet, (s + 1) * per_sheet)`.
proof fn lemma_pair_range(n: nat, p: nat, s: int, k: int)
    requires
        p >= 1,
        0 <= k < p,
        k % (grid_cols(p) as int) < ss_row_width(p),
    ensures
        s * ss_per_sheet(p) <= front_pair(p, s, k) < s * ss_per_sheet(p) + ss_per_sheet(p),
        s * ss_per_sheet(p) <= back_pair(n, p, s, k) < s * ss_per_sheet(p) + ss_per_sheet(p),
{
    lemma_grid_facts(p);
    lemma_slot_row_bound(p, k);
    let cols = grid_cols(p) as int;
    let rows = grid_rows(p) as int;
    let w = ss_row_width(p) as int;
    let c = k % cols;
    let kr = k / cols;
    let br = back_row(n, p, k);
    assert(0 <= br < rows);
    assert(0 <= kr * w <= (rows - 1) * w) by (nonlinear_arith)
        requires
            0 <= kr < rows,
            w >= 0,
    ;
    assert(0 <= br * w <= (rows - 1) * w) by (nonlinear_arith)
        requires
            0 <= br < rows,
            w >= 0,
    ;
    assert((rows - 1) * w + w == w * rows) by (nonlinear_arith);
}

// ---------------------------------------------------------------------------
// The computation.
// ---------------------------------------------------------------------------

/// Smaller of two integers.
pub open spec fn min_int(a: int, b: int) -> int {
    if a < b {
        a
    } else {
        b
    }
}

/// Front side while filling: slots whose pair comes before `t` are placed.
spec fn partial_front(n: nat, p: nat, s: int, t: int) -> Seq<usize> {
    Seq::new(p, |k: int| if front_pair(p, s, k) < t { front_slot(n, p, s, k) as usize } else { 0usize })
}

/// Back side while filling.
spec fn partial_back(n: nat, p: nat, s: int, t: int) -> Seq<usize> {
    Seq::new(
        p,
        |k: int| if back_pair(n, p, s, k) < t { back_slot(n, p, s, k) as usize } else { 0usize },
    )
}

/// A side of `p` blank slots.
fn blank_side(p: usize) -> (v: Vec<usize>)
    ensures
        v@ == Seq::new(p as nat, |k: int| 0usize),
{
    let mut v: Vec<usize> = Vec::new();
    let mut i: usize = 0;
    while i < p
        invariant
            i <= p,
            v@ == Seq::new(i as nat, |k: int| 0usize),
        decreases p - i,
    {
        v.push(0);
        i = i + 1;
    }
    v
}

/// Whether two sides hold the same pages in the same slots.
fn sides_equal(a: &Vec<usize>, b: &Vec<usize>) -> (r: bool)
    ensures
        r == (a@ == b@),
{
    if a.len() != b.len() {
        return false;
    }
    let mut i: usize = 0;
    while i < a.len()
        invariant
            a.len() == b.len(),
            i <= a.len(),
            forall|j: int| 0 <= j < i ==> a@[j] == b@[j],
        decreases a.len() - i,
    {
        if a[i] != b[i] {
            return false;
        }
        i = i + 1;
    }
    assert(a@ =~= b@);
    true
}

/// The preconditions shared by the placement of one sheet.
spec fn placement_ready(
    pairs: Seq<(usize, usize)>,
    n: nat,
    p: nat,
    rows: usize,
    cols: usize,
    ppr: usize,
    rev: bool,
) -> bool {
    &&& p >= 1
    &&& rows == grid_rows(p)
    &&& cols == grid_cols(p)
    &&& ppr == ss_pairs_per_row(p)
    &&& rev == ss_reverse_rows(n, p)
    &&& pairs.len() == ss_num_pairs(n, p)
    &&& forall|g: int|
        0 <= g < pairs.len() ==> {
            &&& #[trigger] pairs[g].0 as int == pair_page(n, ss_adjusted(n, p), g, false)
            &&& pairs[g].1 as int == pair_page(n, ss_adjusted(n, p), g, true)
        }
}

/// Places the pairs of sheet `s` on its front and back, consuming them from
/// `pair_idx` on; returns both sides and the next pair index.
fn fill_sheet(
    pairs: &Vec<(usize, usize)>,
    pair_idx: usize,
    num_pages: usize,
    pages_per_sheet: usize,
    rows: usize,
    cols: usize,
    ppr: usize,
    rev: bool,
    Ghost(s): Ghost<int>,
) -> (res: (Vec<usize>, Vec<usize>, usize))
    requires
        placement_ready(pairs@, num_pages as nat, pages_per_sheet as nat, rows, cols, ppr, rev),
        s >= 0,
        pair_idx == min_int(s * ss_per_sheet(pages_per_sheet as nat), pairs@.len() as int),
    ensures
        res.0@ == ss_front(num_pages as nat, pages_per_sheet as nat, s),
        res.1@ == ss_back(num_pages as nat, pages_per_sheet as nat, s),
        res.2 == min_int(
            (s + 1) * ss_per_sheet(pages_per_sheet as nat),
            pairs@.len() as int,
        ),
{
    let ghost n = num_pages as nat;
    let ghost p = pages_per_sheet as nat;
    let ghost q = ss_per_sheet(p) as int;
    let ghost np = pairs@.len() as int;
    proof {
        lemma_grid_facts(p);
    }
    let w = ppr * 2;
    let mut front = blank_side(pages_per_sheet);
    let mut back = blank_side(pages_per_sheet);
    proof {
        assert forall|k: int| 0 <= k < p implies #[trigger] front@[k] == partial_front(n, p, s, s * q)[k] by {
            lemma_slot_row_bound(p, k);
            if k % (cols as int) < w {
                lemma_pair_range(n, p, s, k);
            }
        }
        assert forall|k: int| 0 <= k < p implies #[trigger] back@[k] == partial_back(n, p, s, s * q)[k] by {
            lemma_slot_row_bound(p, k);
            if k % (cols as int) < w {
                lemma_pair_range(n, p, s, k);
            }
        }
        assert(front@ =~= partial_front(n, p, s, s * q));
        assert(back@ =~= partial_back(n, p, s, s * q));
        assert(s * q + 0 * w == s * q);
    }
    let mut idx = pair_idx;
    let mut row: usize = 0;
    while row < rows
        invariant
            placement_ready(pairs@, n, p, rows, cols, ppr, rev),
            p == pages_per_sheet,
            n == num_pages,
            q == ss_per_sheet(p),
            np == pairs@.len(),
            w == ss_row_width(p),
            s >= 0,
            row <= rows,
            idx == min_int(s * q + row * w, np),
            front@ == partial_front(n, p, s, s * q + row * w),
            back@ == partial_back(n, p, s, s * q + row * w),
        decreases rows - row,
    {
        proof {
            lemma_grid_facts(p);
        }
        let mut pos: usize = 0;
        while pos < w
            invariant
                placement_ready(pairs@, n, p, rows, cols, ppr, rev),
                p == pages_per_sheet,
                n == num_pages,
                q == ss_per_sheet(p),
                np == pairs@.len(),
                w == ss_row_width(p),
                s >= 0,
                row < rows,
                pos <= w,
                idx == min_int(s * q + row * w + pos, np),
                front@ == partial_front(n, p, s, s * q + row * w + pos),
                back@ == partial_back(n, p, s, s * q + row * w + pos),
            decreases w - pos,
        {
            let ghost t = s * q + row * w + pos;
            let ghost of = front@;
            let ghost ob = back@;
            proof {
                lemma_grid_facts(p);
            }
            if idx < pairs.len() {
                let (left, right) = pairs[idx];
                idx = idx + 1;
                if pos % 2 == 0 {
                    proof {
                        assert(row * cols + pos + 1 < p) by (nonlinear_arith)
                            requires
                                row < rows,
                                pos + 1 < w,
                                w <= cols,
                                rows * cols == p,
                        ;
                    }
                    let base = row * cols + pos;
                    front.set(base, left);
                    front.set(base + 1, right);
                } else {
                    let back_r = if rev {
                        rows - 1 - row
                    } else {
                        row
                    };
                    proof {
                        assert(back_r * cols + (w - 1 - pos) + 1 < p) by (nonlinear_arith)
                            requires
                                back_r < rows,
                                w - 1 - pos + 1 < w + 1,
                                pos >= 1,
                                w <= cols,
                                rows * cols == p,
                        ;
                        lemma_slot_coords(row as int, 0, cols as int);
                        assert(back_r == back_row(n, p, row * cols));
                    }
                    let base = back_r * cols + (w - 1 - pos);
                    back.set(base, left);
                    back.set(base + 1, right);
                }
            }
            proof {
                let nf = partial_front(n, p, s, t + 1);
                let nb = partial_back(n, p, s, t + 1);
                let a = ss_adjusted(n, p);
                assert(t >= np ==> front@ == of && back@ == ob);
                assert(pos % 2 == 1 ==> front@ == of);
                assert(pos % 2 == 0 ==> back@ == ob);
                assert forall|k: int| 0 <= k < p implies #[trigger] front@[k] == nf[k] by {
                    lemma_slot_row_bound(p, k);
                    let c = k % (cols as int);
                    if c < w {
                        lemma_front_hit(p, s, k, row as int, pos as int);
                        let base = row * cols + pos;
                        if t < np && pos % 2 == 0 {
                            lemma_slot_coords(row as int, pos as int, cols as int);
                            lemma_slot_coords(row as int, pos as int + 1, cols as int);
                            if k == base {
                                assert(front_slot(n, p, s, k) == pair_page(n, a, t, false));
                                assert(front@[k] == pairs@[t].0);
                            } else if k == base + 1 {
                                assert(front_slot(n, p, s, k) == pair_page(n, a, t, true));
                                assert(front@[k] == pairs@[t].1);
                            } else {
                                assert(front@[k] == of[k]);
                            }
                        } else {
                            assert(front@[k] == of[k]);
                        }
                    } else {
                        if pos + 1 < w {
                            lemma_slot_coords(row as int, pos as int, cols as int);
                            lemma_slot_coords(row as int, pos as int + 1, cols as int);
                        }
                        assert(front@[k] == of[k]);
                    }
                }
                assert forall|k: int| 0 <= k < p implies #[trigger] back@[k] == nb[k] by {
                    lemma_slot_row_bound(p, k);
                    let c = k % (cols as int);
                    if c < w {
                        lemma_back_hit(n, p, s, k, row as int, pos as int);
                        lemma_slot_coords(row as int, 0, cols as int);
                        let br0 = back_row(n, p, row * cols);
                        let base = br0 * cols + (w - 1 - pos);
                        if t < np && pos % 2 == 1 {
                            lemma_slot_coords(br0, w - 1 - pos, cols as int);
                            lemma_slot_coords(br0, w - pos, cols as int);
                            if k == base {
                                assert(back_slot(n, p, s, k) == pair_page(n, a, t, false));
                                assert(back@[k] == pairs@[t].0);
                            } else if k == base + 1 {
                                assert(back_slot(n, p, s, k) == pair_page(n, a, t, true));
                                assert(back@[k] == pairs@[t].1);
                            } else {
                                assert(back@[k] == ob[k]);
                            }
                        } else {
                            assert(back@[k] == ob[k]);
                        }
                    } else {
                        if pos >= 1 {
                            lemma_slot_coords(row as int, 0, cols as int);
                            let br0 = back_row(n, p, row * cols);
                            lemma_slot_coords(br0, w - 1 - pos, cols as int);
                            lemma_slot_coords(br0, w - pos, cols as int);
                        }
                        assert(back@[k] == ob[k]);
                    }
                }
                assert(front@ =~= nf);
                assert(back@ =~= nb);
            }
            pos = pos + 1;
        }
        proof {
            assert(s * q + row * w + w == s * q + (row + 1) * w) by (nonlinear_arith);
        }
        row = row + 1;
    }
    proof {
        let t = s * q + rows * w;
        assert(rows * w == q) by (nonlinear_arith)
            requires
                q == w * rows,
        ;
        assert forall|k: int| 0 <= k < p implies #[trigger] front@[k] == ss_front(n, p, s)[k] by {
            lemma_slot_row_bound(p, k);
            if k % (cols as int) < w {
                lemma_pair_range(n, p, s, k);
            }
        }
        assert forall|k: int| 0 <= k < p implies #[trigger] back@[k] == ss_back(n, p, s)[k] by {
            lemma_slot_row_bound(p, k);
            if k % (cols as int) < w {
                lemma_pair_range(n, p, s, k);
            }
        }
        assert(front@ =~= ss_front(n, p, s));
        assert(back@ =~= ss_back(n, p, s));
        assert(s * q + q == (s + 1) * q) by (nonlinear_arith);
    }
    (front, back, idx)
}


/// `div_ceil(n, p) * p` covers `n`, and at most `p - 1` more.
pub proof fn lemma_div_ceil_cover(n: nat, p: nat)
    requires
        p >= 1,
    ensures
        div_ceil(n, p) * p >= n,
        div_ceil(n, p) * p < n + p,
{
    vstd::arithmetic::div_mod::lemma_fundamental_div_mod(n as int, p as int);
    let q = n / p;
    let r = n % p;
    assert(q * p == p * q) by (nonlinear_arith);
    assert((q + 1) * p == q * p + p) by (nonlinear_arith);
}

/// Calculate the page ordering for saddle stitch booklets (n-up, n >= 2).
///
/// Each side holds `pages_per_sheet` slots in a grid; nesting pairs fill
/// the rows two columns at a time, so a grid with an odd number of columns
/// leaves its last column blank and a side takes `ss_per_sheet` pages (all
/// `pages_per_sheet` for an even number of columns). The page count is
/// padded to an even number of such sides; whole groups of four blank pages
/// are left out of the nesting, so they end up grouped at the end. Pair `i`
/// of the nesting is `(adjusted - i, i + 1)` for even `i` and
/// `(i + 1, adjusted - i)` for odd `i`; pages past `num_pages` become blanks
/// (0). Pairs are placed row by row, alternating between front (left to
/// right) and back (right to left), the back rows running bottom to top for
/// large single-pair-per-row grids. A back identical to its front is left
/// out. Fewer than two pages per side give no sides.
pub fn calculate_saddle_stitch_order(num_pages: usize, pages_per_sheet: usize) -> (res: Vec<
    Vec<usize>,
>)
    requires
        ss_fits(num_pages as nat, pages_per_sheet as nat),
    ensures
        res@.len() == saddle_stitch_order(num_pages as nat, pages_per_sheet as nat).len(),
        forall|i: int|
            0 <= i < res@.len() ==> #[trigger] res@[i]@ == saddle_stitch_order(
                num_pages as nat,
                pages_per_sheet as nat,
            )[i],
{
    if pages_per_sheet < 2 {
        return Vec::new();
    }
    let ghost n = num_pages as nat;
    let ghost p = pages_per_sheet as nat;
    let (grid_rows_n, grid_cols_n) = calculate_saddle_stitch_grid(pages_per_sheet);
    let pairs_per_row = grid_cols_n / 2;
    proof {
        lemma_grid_facts(p);
        assert(pairs_per_row * 2 * grid_rows_n == ss_per_sheet(p)) by (nonlinear_arith)
            requires
                ss_per_sheet(p) == (2 * pairs_per_row) * grid_rows_n,
        ;
    }
    // Pages per side that whole pairs fill.
    let side_pages = pairs_per_row * 2 * grid_rows_n;
    let ghost q = side_pages as nat;
    proof {
        lemma_div_ceil_cover(n, q);
        let dc = div_ceil(n, q);
        let ts = ss_total_sides(n, p);
        assert(ts <= ts * q) by (nonlinear_arith)
            requires
                q >= 1,
        ;
        assert(ts * q >= dc * q) by (nonlinear_arith)
            requires
                ts >= dc,
                q >= 1,
        ;
        if n % q != 0 {
            assert(num_pages / side_pages + 1 == dc);
        }
    }
    // An even number of sides, so every sheet has a front and a back.
    let min_sides = if num_pages % side_pages == 0 {
        num_pages / side_pages
    } else {
        num_pages / side_pages + 1
    };
    let total_sides = if min_sides % 2 == 0 {
        min_sides
    } else {
        min_sides + 1
    };
    let initial_adjusted = total_sides * side_pages;
    // Whole groups of four blanks are kept out of the nesting.
    let num_blanks = initial_adjusted - num_pages;
    let complete_blank_pairs = num_blanks / 4;
    let adjusted_num_pages = initial_adjusted - complete_blank_pairs * 4;

    let total_pairs = adjusted_num_pages / 2;
    let total_sheets = total_sides / 2;

    // The nesting pairs, outer to inner.
    let mut page_pairs: Vec<(usize, usize)> = Vec::new();
    let mut i: usize = 0;
    while i < total_pairs
        invariant
            n == num_pages,
            p == pages_per_sheet,
            total_pairs == ss_num_pairs(n, p),
            adjusted_num_pages == ss_adjusted(n, p),
            total_pairs <= adjusted_num_pages,
            i <= total_pairs,
            page_pairs@.len() == i,
            forall|g: int|
                0 <= g < i ==> {
                    &&& #[trigger] page_pairs@[g].0 as int == pair_page(n, ss_adjusted(n, p), g, false)
                    &&& page_pairs@[g].1 as int == pair_page(n, ss_adjusted(n, p), g, true)
                },
        decreases total_pairs - i,
    {
        let (left_page, right_page) = if i % 2 == 0 {
            (adjusted_num_pages - i, i + 1)
        } else {
            (i + 1, adjusted_num_pages - i)
        };
        let left = if left_page <= num_pages {
            left_page
        } else {
            0
        };
        let right = if right_page <= num_pages {
            right_page
        } else {
            0
        };
        page_pairs.push((left, right));
        i = i + 1;
    }

    let reverse_rows = pages_per_sheet > 4 && pairs_per_row == 1 && page_pairs.len()
        >= side_pages;
    proof {
        assert(reverse_rows == ss_reverse_rows(n, p));
        assert(pairs_per_row == ss_pairs_per_row(p));
        assert(page_pairs@.len() == ss_num_pairs(n, p));
        assert(placement_ready(
            page_pairs@,
            n,
            p,
            grid_rows_n,
            grid_cols_n,
            pairs_per_row,
            reverse_rows,
        ));
    }

    let mut ordering: Vec<Vec<usize>> = Vec::new();
    let mut pair_idx: usize = 0;
    let mut sheet: usize = 0;
    while sheet < total_sheets
        invariant
            n == num_pages,
            p == pages_per_sheet,
            p >= 1,
            total_sheets == ss_sheets(n, p),
            placement_ready(
                page_pairs@,
                n,
                p,
                grid_rows_n,
                grid_cols_n,
                pairs_per_row,
                reverse_rows,
            ),
            sheet <= total_sheets,
            pair_idx == min_int(sheet * ss_per_sheet(p), page_pairs@.len() as int),
            ordering@.len() == ss_sides_upto(n, p, sheet as nat).len(),
            forall|j: int|
                0 <= j < ordering@.len() ==> #[trigger] ordering@[j]@ == ss_sides_upto(
                    n,
                    p,
                    sheet as nat,
                )[j],
        decreases total_sheets - sheet,
    {
        let (front_pages, back_pages, next_idx) = fill_sheet(
            &page_pairs,
            pair_idx,
            num_pages,
            pages_per_sheet,
            grid_rows_n,
            grid_cols_n,
            pairs_per_row,
            reverse_rows,
            Ghost(sheet as int),
        );
        pair_idx = next_idx;
        // A back identical to its front (possible for tiny inputs) is not emitted.
        let same = sides_equal(&back_pages, &front_pages);
        let ghost prev = ordering@;
        ordering.push(front_pages);
        if !same {
            ordering.push(back_pages);
        }
        proof {
            let upto = ss_sides_upto(n, p, (sheet + 1) as nat);
            assert(upto.len() == ordering@.len());
            assert forall|j: int| 0 <= j < ordering@.len() implies #[trigger] ordering@[j]@
                == upto[j] by {
                if j < prev.len() {
                    assert(ordering@[j] == prev[j]);
                }
            }
        }
        sheet = sheet + 1;
    }
    ordering
}


/// Every page number in slot `k` of sheet `s` is a real page or a blank.
proof fn lemma_slot_bounded(n: nat, p: nat, s: int, k: int)
    requires
        p >= 1,
        s >= 0,
        0 <= k < p,
    ensures
        0 <= front_slot(n, p, s, k) <= n,
        0 <= back_slot(n, p, s, k) <= n,
{
    lemma_grid_facts(p);
    lemma_slot_row_bound(p, k);
    if k % (grid_cols(p) as int) < ss_row_width(p) {
        lemma_pair_range(n, p, s, k);
        assert(s * ss_per_sheet(p) >= 0) by (nonlinear_arith)
            requires
                s >= 0,
        ;
    }
}

/// Each side produced for the first `s` sheets has `p` slots, each holding
/// a page of `1..=n` or a blank.
pub proof fn lemma_sides_shape(n: nat, p: nat, s: nat)
    requires
        p >= 1,
    ensures
        forall|i: int|
            0 <= i < ss_sides_upto(n, p, s).len() ==> (#[trigger] ss_sides_upto(n, p, s)[i]).len()
                == p,
        forall|i: int, k: int|
            0 <= i < ss_sides_upto(n, p, s).len() && 0 <= k < p ==> #[trigger] ss_sides_upto(
                n,
                p,
                s,
            )[i][k] <= n,
    decreases s,
{
    if s > 0 {
        lemma_sides_shape(n, p, (s - 1) as nat);
        assert forall|k: int| 0 <= k < p implies #[trigger] ss_front(n, p, s - 1)[k] <= n by {
            lemma_slot_bounded(n, p, s - 1, k);
        }
        assert forall|k: int| 0 <= k < p implies #[trigger] ss_back(n, p, s - 1)[k] <= n by {
            lemma_slot_bounded(n, p, s - 1, k);
        }
        let prev = ss_sides_upto(n, p, (s - 1) as nat);
        let cur = ss_sides_upto(n, p, s);
        assert forall|i: int| 0 <= i < cur.len() implies (#[trigger] cur[i]).len() == p && (
        forall|k: int| 0 <= k < p ==> cur[i][k] <= n) by {
            if i < prev.len() {
                assert(cur[i] == prev[i]);
                assert forall|k: int| 0 <= k < p implies cur[i][k] <= n by {
                    assert(prev[i][k] <= n);
                }
            } else if i == prev.len() {
                assert(cur[i] == ss_front(n, p, s - 1));
                assert forall|k: int| 0 <= k < p implies cur[i][k] <= n by {
                    assert(ss_front(n, p, s - 1)[k] <= n);
                }
            } else {
                assert(cur[i] == ss_back(n, p, s - 1));
                assert forall|k: int| 0 <= k < p implies cur[i][k] <= n by {
                    assert(ss_back(n, p, s - 1)[k] <= n);
                }
            }
        }
    }
}

/// Every side of the saddle stitch ordering has `p` slots, each holding a
/// page of `1..=n` or a blank (0).
pub proof fn lemma_saddle_stitch_shape(n: nat, p: nat)
    ensures
        forall|i: int|
            0 <= i < saddle_stitch_order(n, p).len() ==> (#[trigger] saddle_stitch_order(
                n,
                p,
            )[i]).len() == p,
        forall|i: int, k: int|
            0 <= i < saddle_stitch_order(n, p).len() && 0 <= k < p ==> #[trigger] saddle_stitch_order(
                n,
                p,
            )[i][k] <= n,
{
    if p >= 2 {
        lemma_sides_shape(n, p, ss_sheets(n, p));
    }
}

/// When the page count fits in `m` sides (`m` even), so does the padded
/// saddle stitch layout.
pub proof fn lemma_total_sides_within(n: nat, p: nat, m: nat)
    requires
        p >= 2,
        m % 2 == 0,
        n <= m * ss_per_sheet(p),
    ensures
        ss_total_sides(n, p) <= m,
        ss_initial_slots(n, p) <= m * ss_per_sheet(p),
{
    lemma_grid_facts(p);
    let q = ss_per_sheet(p);
    vstd::arithmetic::div_mod::lemma_fundamental_div_mod(n as int, q as int);
    let d = n / q;
    let r = n % q;
    if d > m {
        assert(q * d >= q * (m + 1)) by (nonlinear_arith)
            requires
                d >= m + 1,
                q >= 1,
        ;
        assert(q * (m + 1) == m * q + q) by (nonlinear_arith);
    }
    if d == m && r > 0 {
        assert(q * d == m * q) by (nonlinear_arith)
            requires
                d == m,
        ;
    }
    assert(ss_total_sides(n, p) * q <= m * q) by (nonlinear_arith)
        requires
            ss_total_sides(n, p) <= m,
    ;
}


// ---------------------------------------------------------------------------
// Laws: every page is printed exactly once.
// ---------------------------------------------------------------------------

/// Nesting pair that holds page `x`.
pub open spec fn page_pair(n: nat, p: nat, x: int) -> int {
    if x <= ss_num_pairs(n, p) {
        x - 1
    } else {
        ss_adjusted(n, p) - x
    }
}

/// Whether page `x` is the right page of its pair.
pub open spec fn page_is_right(n: nat, p: nat, x: int) -> bool {
    (x <= ss_num_pairs(n, p)) == (page_pair(n, p, x) % 2 == 0)
}

/// Sheet on which page `x` is printed.
pub open spec fn page_sheet(n: nat, p: nat, x: int) -> int {
    page_pair(n, p, x) / (ss_per_sheet(p) as int)
}

/// Position of the pair of page `x` among the pairs of its sheet.
pub open spec fn page_offset(n: nat, p: nat, x: int) -> int {
    page_pair(n, p, x) % (ss_per_sheet(p) as int)
}

/// Whether page `x` is printed on the back of its sheet.
pub open spec fn page_on_back(n: nat, p: nat, x: int) -> bool {
    (page_offset(n, p, x) % (ss_row_width(p) as int)) % 2 == 1
}

/// Slot of its side in which page `x` is printed.
pub open spec fn page_slot(n: nat, p: nat, x: int) -> int {
    let cols = grid_cols(p) as int;
    let w = ss_row_width(p) as int;
    let h = page_offset(n, p, x);
    let row = h / w;
    let j = h % w;
    let r = if page_is_right(n, p, x) {
        1int
    } else {
        0int
    };
    if j % 2 == 0 {
        row * cols + j + r
    } else {
        let br = if ss_reverse_rows(n, p) {
            grid_rows(p) - 1 - row
        } else {
            row
        };
        br * cols + (w - 1 - j) + r
    }
}

/// A cell `(r, c)` of a `rows x cols` grid has an index below `rows * cols`.
proof fn lemma_index_in_grid(r: int, c: int, rows: int, cols: int)
    requires
        0 <= r < rows,
        0 <= c < cols,
    ensures
        0 <= r * cols + c < rows * cols,
{
    assert(0 <= r * cols <= (rows - 1) * cols) by (nonlinear_arith)
        requires
            0 <= r <= rows - 1,
            cols >= 0,
    ;
    assert((rows - 1) * cols + cols == rows * cols) by (nonlinear_arith);
}

/// The counts that fix the nesting: `adjusted` is even, covers every page,
/// and the pairs fit on the sheets.
proof fn lemma_counts(n: nat, p: nat)
    requires
        p >= 2,
    ensures
        ss_adjusted(n, p) == 2 * ss_num_pairs(n, p),
        ss_adjusted(n, p) >= n,
        ss_adjusted(n, p) < n + 4,
        ss_initial_slots(n, p) == 2 * ss_sheets(n, p) * ss_per_sheet(p),
        ss_per_sheet(p) == ss_row_width(p) * grid_rows(p),
        ss_per_sheet(p) >= 2,
        ss_num_pairs(n, p) <= ss_sheets(n, p) * ss_per_sheet(p),
{
    lemma_grid_facts(p);
    let q = ss_per_sheet(p);
    lemma_div_ceil_cover(n, q);
    let ts = ss_total_sides(n, p);
    let i = ss_initial_slots(n, p) as int;
    assert(ts * q >= div_ceil(n, q) * q) by (nonlinear_arith)
        requires
            ts >= div_ceil(n, q),
    ;
    assert(i == 2 * ss_sheets(n, p) * q) by (nonlinear_arith)
        requires
            i == ts * q,
            ts == 2 * ss_sheets(n, p),
    ;
    // slots are even, and a multiple of 4 is taken off
    let sq = ss_sheets(n, p) * q;
    assert(2 * ss_sheets(n, p) * q == 2 * sq) by (nonlinear_arith)
        requires
            sq == ss_sheets(n, p) * q,
    ;
    vstd::arithmetic::div_mod::lemma_fundamental_div_mod(i - n, 4);
    let qq = (i - n) / 4;
    assert(qq * 4 == 4 * qq) by (nonlinear_arith);
    assert(ss_num_pairs(n, p) <= ss_sheets(n, p) * q);
}

/// Front slot `k` of sheet `s` that holds a page holds the page whose sheet,
/// side and slot these are.
proof fn lemma_front_inverse(n: nat, p: nat, s: int, k: int)
    requires
        p >= 2,
        s >= 0,
        0 <= k < p,
        front_slot(n, p, s, k) != 0,
    ensures
        1 <= front_slot(n, p, s, k) <= n,
        page_sheet(n, p, front_slot(n, p, s, k)) == s,
        !page_on_back(n, p, front_slot(n, p, s, k)),
        page_slot(n, p, front_slot(n, p, s, k)) == k,
{
    lemma_counts(n, p);
    lemma_grid_facts(p);
    lemma_slot_bounded(n, p, s, k);
    lemma_slot_row_bound(p, k);
    let cols = grid_cols(p) as int;
    let rows = grid_rows(p) as int;
    let w = ss_row_width(p) as int;
    let q = ss_per_sheet(p) as int;
    let c = k % cols;
    let kr = k / cols;
    let j = c - c % 2;
    let g = front_pair(p, s, k);
    let x = front_slot(n, p, s, k);
    let np = ss_num_pairs(n, p);
    assert(c < w);
    lemma_pair_range(n, p, s, k);
    assert(g < np);
    // page x determines pair g
    assert(page_pair(n, p, x) == g);
    assert(page_is_right(n, p, x) == (c % 2 == 1));
    // pair g lies on sheet s, position h
    let h = kr * w + j;
    lemma_index_in_grid(kr, j, rows, w);
    assert(rows * w == q) by (nonlinear_arith)
        requires
            q == w * rows,
    ;
    assert(g == s * q + h);
    vstd::arithmetic::div_mod::lemma_fundamental_div_mod_converse(g, q, s, h);
    lemma_slot_coords(kr, j, w);
    vstd::arithmetic::div_mod::lemma_fundamental_div_mod(k, cols);
    assert(k == kr * cols + c) by (nonlinear_arith)
        requires
            k == cols * kr + c,
    ;
}

/// Back slot `k` of sheet `s` that holds a page holds the page whose sheet,
/// side and slot these are.
proof fn lemma_back_inverse(n: nat, p: nat, s: int, k: int)
    requires
        p >= 2,
        s >= 0,
        0 <= k < p,
        back_slot(n, p, s, k) != 0,
    ensures
        1 <= back_slot(n, p, s, k) <= n,
        page_sheet(n, p, back_slot(n, p, s, k)) == s,
        page_on_back(n, p, back_slot(n, p, s, k)),
        page_slot(n, p, back_slot(n, p, s, k)) == k,
{
    lemma_counts(n, p);
    lemma_grid_facts(p);
    lemma_slot_bounded(n, p, s, k);
    lemma_slot_row_bound(p, k);
    let cols = grid_cols(p) as int;
    let rows = grid_rows(p) as int;
    let w = ss_row_width(p) as int;
    let q = ss_per_sheet(p) as int;
    let c = k % cols;
    let kr = k / cols;
    let row = back_row(n, p, k);
    let j = w - 1 - (c - c % 2);
    let g = back_pair(n, p, s, k);
    let x = back_slot(n, p, s, k);
    assert(c < w);
    lemma_pair_range(n, p, s, k);
    assert(page_pair(n, p, x) == g);
    assert(page_is_right(n, p, x) == (c % 2 == 1));
    let h = row * w + j;
    lemma_index_in_grid(row, j, rows, w);
    assert(rows * w == q) by (nonlinear_arith)
        requires
            q == w * rows,
    ;
    assert(g == s * q + h);
    vstd::arithmetic::div_mod::lemma_fundamental_div_mod_converse(g, q, s, h);
    lemma_slot_coords(row, j, w);
    vstd::arithmetic::div_mod::lemma_fundamental_div_mod(k, cols);
    assert(k == kr * cols + c) by (nonlinear_arith)
        requires
            k == cols * kr + c,
    ;
}

/// Every page `1..=n` is placed: on sheet `page_sheet`, on the side
/// `page_on_back` names, in slot `page_slot`.
proof fn lemma_page_placed(n: nat, p: nat, x: int)
    requires
        p >= 2,
        1 <= x <= n,
    ensures
        0 <= page_sheet(n, p, x) < ss_sheets(n, p),
        0 <= page_slot(n, p, x) < p,
        page_on_back(n, p, x) ==> back_slot(n, p, page_sheet(n, p, x), page_slot(n, p, x)) == x,
        !page_on_back(n, p, x) ==> front_slot(n, p, page_sheet(n, p, x), page_slot(n, p, x))
            == x,
{
    lemma_counts(n, p);
    lemma_grid_facts(p);
    let cols = grid_cols(p) as int;
    let rows = grid_rows(p) as int;
    let w = ss_row_width(p) as int;
    let q = ss_per_sheet(p) as int;
    let np = ss_num_pairs(n, p);
    let g = page_pair(n, p, x);
    assert(0 <= g < np);
    let t = page_sheet(n, p, x);
    let h = page_offset(n, p, x);
    vstd::arithmetic::div_mod::lemma_fundamental_div_mod(g, q);
    assert(g == t * q + h) by (nonlinear_arith)
        requires
            g == q * t + h,
    ;
    assert(0 <= t) by (nonlinear_arith)
        requires
            g >= 0,
            g == q * t + h,
            0 <= h < q,
    ;
    assert(t < ss_sheets(n, p)) by (nonlinear_arith)
        requires
            g < np,
            np <= ss_sheets(n, p) * q,
            g == t * q + h,
            0 <= h < q,
    ;
    let row = h / w;
    let j = h % w;
    vstd::arithmetic::div_mod::lemma_fundamental_div_mod(h, w);
    assert(h == row * w + j) by (nonlinear_arith)
        requires
            h == w * row + j,
    ;
    assert(0 <= row < rows) by (nonlinear_arith)
        requires
            h == row * w + j,
            0 <= h < q,
            0 <= j < w,
            q == w * rows,
    ;
    let r: int = if page_is_right(n, p, x) {
        1
    } else {
        0
    };
    if j % 2 == 0 {
        let k = row * cols + j + r;
        assert(j + r < w);
        lemma_slot_coords(row, j + r, cols);
        lemma_index_in_grid(row, j + r, rows, cols);
        assert(front_pair(p, t, k) == g);
    } else {
        let br = if ss_reverse_rows(n, p) {
            rows - 1 - row
        } else {
            row
        };
        let k = br * cols + (w - 1 - j) + r;
        assert(w - 1 - j + r < w);
        lemma_slot_coords(br, w - 1 - j + r, cols);
        lemma_index_in_grid(br, w - 1 - j + r, rows, cols);
        assert(back_row(n, p, k) == row);
        assert(back_pair(n, p, t, k) == g);
    }
}


/// Page `x` is printed in some slot of `sides`.
pub open spec fn shows_page(sides: Seq<Seq<usize>>, x: int) -> bool {
    exists|i: int, k: int|
        0 <= i < sides.len() && 0 <= k < sides[i].len() && #[trigger] sides[i][k] == x
}

/// No page other than a blank is printed in two slots of `sides`.
pub open spec fn pages_distinct(sides: Seq<Seq<usize>>) -> bool {
    forall|i1: int, k1: int, i2: int, k2: int|
        0 <= i1 < sides.len() && 0 <= k1 < sides[i1].len() && 0 <= i2 < sides.len() && 0 <= k2
            < sides[i2].len() && sides[i1][k1] != 0 && #[trigger] sides[i1][k1]
            == #[trigger] sides[i2][k2] ==> i1 == i2 && k1 == k2
}

/// What holds of the sides of the first `s` sheets.
spec fn sides_placed(n: nat, p: nat, s: nat) -> bool {
    let out = ss_sides_upto(n, p, s);
    &&& forall|i: int, k: int|
        0 <= i < out.len() && 0 <= k < p && #[trigger] out[i][k] != 0 ==> page_sheet(
            n,
            p,
            out[i][k] as int,
        ) < s
    &&& pages_distinct(out)
    &&& forall|x: int| 1 <= x <= n && page_sheet(n, p, x) < s ==> #[trigger] shows_page(out, x)
}

proof fn lemma_sides_placed(n: nat, p: nat, s: nat)
    requires
        p >= 2,
        n <= usize::MAX,
    ensures
        sides_placed(n, p, s),
    decreases s,
{
    lemma_sides_shape(n, p, s);
    lemma_grid_facts(p);
    if s > 0 {
        let t = (s - 1) as nat;
        lemma_sides_placed(n, p, t);
        lemma_sides_shape(n, p, t);
        let prev = ss_sides_upto(n, p, t);
        let out = ss_sides_upto(n, p, s);
        let f = ss_front(n, p, t as int);
        let b = ss_back(n, p, t as int);
        let l = prev.len() as int;
        assert(forall|i: int| 0 <= i < l ==> #[trigger] out[i] == prev[i]);
        assert(out[l] == f);
        assert(b != f ==> out[l + 1] == b);
        assert(out.len() == if b == f {
            l + 1
        } else {
            l + 2
        });
        // values of the new sides belong to sheet t
        assert forall|k: int| 0 <= k < p && #[trigger] f[k] != 0 implies page_sheet(
            n,
            p,
            f[k] as int,
        ) == t && !page_on_back(n, p, f[k] as int) && page_slot(n, p, f[k] as int) == k by {
            lemma_slot_bounded(n, p, t as int, k);
            lemma_front_inverse(n, p, t as int, k);
        }
        assert forall|k: int| 0 <= k < p && #[trigger] b[k] != 0 implies page_sheet(
            n,
            p,
            b[k] as int,
        ) == t && page_on_back(n, p, b[k] as int) && page_slot(n, p, b[k] as int) == k by {
            lemma_slot_bounded(n, p, t as int, k);
            lemma_back_inverse(n, p, t as int, k);
        }
        // (a) every value belongs to a sheet before s
        assert forall|i: int, k: int|
            0 <= i < out.len() && 0 <= k < p && #[trigger] out[i][k] != 0 implies page_sheet(
            n,
            p,
            out[i][k] as int,
        ) < s by {
            if i < l {
                assert(out[i][k] == prev[i][k]);
            } else if i == l {
                assert(out[i][k] == f[k]);
            } else {
                assert(out[i][k] == b[k]);
            }
        }
        // (b) distinct
        assert forall|i1: int, k1: int, i2: int, k2: int|
            0 <= i1 < out.len() && 0 <= k1 < out[i1].len() && 0 <= i2 < out.len() && 0 <= k2
                < out[i2].len() && out[i1][k1] != 0 && #[trigger] out[i1][k1]
                == #[trigger] out[i2][k2] implies i1 == i2 && k1 == k2 by {
            let v = out[i1][k1];
            assert(out[i1].len() == p);
            assert(out[i2].len() == p);
            if i1 < l {
                assert(out[i1][k1] == prev[i1][k1]);
                assert(page_sheet(n, p, v as int) < t);
            }
            if i2 < l {
                assert(out[i2][k2] == prev[i2][k2]);
                assert(page_sheet(n, p, v as int) < t);
            }
            if i1 >= l {
                if i1 == l {
                    assert(v == f[k1]);
                } else {
                    assert(v == b[k1]);
                }
            }
            if i2 >= l {
                if i2 == l {
                    assert(v == f[k2]);
                } else {
                    assert(v == b[k2]);
                }
            }
        }
        // (c) every page of sheets before s is shown
        assert forall|x: int| 1 <= x <= n && page_sheet(n, p, x) < s implies #[trigger] shows_page(
            out,
            x,
        ) by {
            if page_sheet(n, p, x) < t {
                assert(shows_page(prev, x));
                let (i, k) = choose|i: int, k: int|
                    0 <= i < prev.len() && 0 <= k < prev[i].len() && #[trigger] prev[i][k] == x;
                assert(out[i][k] == x);
            } else {
                lemma_page_placed(n, p, x);
                let k = page_slot(n, p, x);
                if page_on_back(n, p, x) {
                    assert(b[k] == x);
                    if b == f {
                        assert(f[k] == x);
                        assert(!page_on_back(n, p, x));
                    }
                    assert(out[l + 1][k] == x);
                } else {
                    assert(f[k] == x);
                    assert(out[l][k] == x);
                }
            }
        }
    }
}

/// Every page of the document is printed exactly once: each page `1..=n`
/// is in some slot of some side, and no two slots hold the same page (all
/// other slots are blanks, 0). Holds for every layout with at least two
/// pages per side.
pub proof fn lemma_saddle_stitch_each_page_once(n: nat, p: nat)
    requires
        p >= 2,
        n <= usize::MAX,
    ensures
        forall|x: int| 1 <= x <= n ==> #[trigger] shows_page(saddle_stitch_order(n, p), x),
        pages_distinct(saddle_stitch_order(n, p)),
{
    lemma_sides_placed(n, p, ss_sheets(n, p));
    assert forall|x: int| 1 <= x <= n implies #[trigger] shows_page(saddle_stitch_order(n, p), x) by {
        lemma_page_placed(n, p, x);
    }
}


/// The front of every sheet `s` shows page `s * q + 1` in its second slot,
/// `q` being the pages a side holds.
proof fn lemma_front_second_slot(n: nat, p: nat, s: int)
    requires
        p >= 2,
        n <= usize::MAX,
        0 <= s < ss_sheets(n, p),
    ensures
        front_slot(n, p, s, 1) == s * ss_per_sheet(p) + 1,
        1 <= s * ss_per_sheet(p) + 1 <= n,
{
    lemma_counts(n, p);
    lemma_grid_facts(p);
    let q = ss_per_sheet(p) as int;
    let w = ss_row_width(p) as int;
    lemma_div_ceil_cover(n, q as nat);
    let cols = grid_cols(p) as int;
    let m = div_ceil(n, q as nat);
    let np = ss_num_pairs(n, p);
    lemma_slot_coords(0, 1, cols);
    assert(front_pair(p, s, 1) == s * q);
    // 2 * s <= m - 1, so the pair lies among the nesting pairs
    assert(2 * s <= m - 1);
    if m == 0 {
        assert(ss_sheets(n, p) == 0);
    }
    assert((m - 1) * q >= 2 * s * q) by (nonlinear_arith)
        requires
            2 * s <= m - 1,
            q >= 0,
    ;
    assert(s * q >= 0) by (nonlinear_arith)
        requires
            s >= 0,
            q >= 0,
    ;
    assert(m * q == (m - 1) * q + q) by (nonlinear_arith);
    assert(2 * s * q == 2 * (s * q)) by (nonlinear_arith);
    assert(s * q + 1 <= n);
    assert(s * q < np);
    // the row width is even, so pair s * q is an even (outer-left) pair
    let r = grid_rows(p) as int;
    assert((s * q) % 2 == 0) by (nonlinear_arith)
        requires
            q == w * r,
            w % 2 == 0,
    {
        let hw = w / 2;
        assert(w == 2 * hw);
        assert(s * q == 2 * (s * r * hw));
    }
}

/// The sides of the first `s` sheets are `2 * s`: no back is left out.
proof fn lemma_sides_count(n: nat, p: nat, s: nat)
    requires
        p >= 2,
        n <= usize::MAX,
        s <= ss_sheets(n, p),
    ensures
        ss_sides_upto(n, p, s).len() == 2 * s,
    decreases s,
{
    if s > 0 {
        let t = (s - 1) as nat;
        lemma_sides_count(n, p, t);
        let f = ss_front(n, p, t as int);
        let b = ss_back(n, p, t as int);
        lemma_front_second_slot(n, p, t as int);
        if b == f {
            assert(b[1] == f[1]);
            assert(f[1] as int == t * ss_per_sheet(p) + 1);
            lemma_front_inverse(n, p, t as int, 1);
            lemma_back_inverse(n, p, t as int, 1);
        }
    }
}

/// The saddle stitch ordering prints `ss_total_sides(n, p)` sides: the page
/// count divided into sides of `ss_per_sheet(p)` pages (every slot when the
/// grid has an even number of columns), rounded up to whole sheets (front and
/// back), with no side left out.
pub proof fn lemma_saddle_stitch_side_count(n: nat, p: nat)
    requires
        p >= 2,
        n <= usize::MAX,
    ensures
        saddle_stitch_order(n, p).len() == ss_total_sides(n, p),
        ss_total_sides(n, p) % 2 == 0,
        ss_total_sides(n, p) * ss_per_sheet(p) >= n,
        ss_total_sides(n, p) * ss_per_sheet(p) < n + 2 * ss_per_sheet(p),
        grid_cols(p) % 2 == 0 ==> ss_per_sheet(p) == p,
{
    lemma_sides_count(n, p, ss_sheets(n, p));
    lemma_grid_facts(p);
    let q = ss_per_sheet(p);
    lemma_div_ceil_cover(n, q);
    let m = div_ceil(n, q);
    let ts = ss_total_sides(n, p);
    assert(ts * q >= m * q) by (nonlinear_arith)
        requires
            ts >= m,
    ;
    assert(ts * q <= m * q + q) by (nonlinear_arith)
        requires
            ts <= m + 1,
    ;
}

} // verus!
