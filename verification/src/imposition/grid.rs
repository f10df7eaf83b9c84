//! The grid in which the pages of one side of a sheet are laid out.

use vstd::prelude::*;

use crate::config::is_pow2;

verus! {

/// `r` is the number of rows of the most square grid of `n` cells:
/// the largest divisor of `n` whose square does not exceed `n`.
pub open spec fn is_grid_rows(n: nat, r: nat) -> bool {
    &&& 1 <= r
    &&& r * r <= n
    &&& n % r == 0
    &&& forall|d: nat| r < d && d * d <= n ==> #[trigger] (n % d) != 0
}

/// The largest `d` in `1..=k` with `d * d <= n` that divides `n`
/// (1 when there is none).
pub open spec fn best_rows_upto(n: nat, k: nat) -> nat
    decreases k,
{
    if k <= 1 {
        1
    } else if k * k <= n && n % k == 0 {
        k
    } else {
        best_rows_upto(n, (k - 1) as nat)
    }
}

/// Rows of the grid for `n` pages per side (1 for `n == 0`).
pub open spec fn grid_rows(n: nat) -> nat {
    if n == 0 {
        1
    } else {
        best_rows_upto(n, n)
    }
}

/// Columns of the grid for `n` pages per side (1 for `n == 0`).
pub open spec fn grid_cols(n: nat) -> nat {
    if n == 0 {
        1
    } else {
        n / grid_rows(n)
    }
}

proof fn lemma_square_bounds(p: int, d: int)
    requires
        p >= 0,
        d >= 1,
    ensures
        d <= p / d ==> d * d <= p,
        d > p / d ==> d * d > p,
{
    vstd::arithmetic::div_mod::lemma_fundamental_div_mod(p, d);
    let q = p / d;
    let r = p % d;
    assert(0 <= r < d);
    if d <= q {
        assert(d * d <= d * q) by (nonlinear_arith)
            requires
                d <= q,
                d >= 1,
        ;
    } else {
        assert(d * d >= d * (q + 1)) by (nonlinear_arith)
            requires
                d >= q + 1,
                d >= 1,
        ;
        assert(d * (q + 1) == d * q + d) by (nonlinear_arith);
    }
}

proof fn lemma_square_monotone(d: int, e: int)
    requires
        1 <= d <= e,
    ensures
        d * d <= e * e,
{
    assert(d * d <= e * e) by (nonlinear_arith)
        requires
            1 <= d <= e,
    ;
}

/// Two values that both satisfy `is_grid_rows` are equal.
pub proof fn lemma_grid_rows_unique(n: nat, a: nat, b: nat)
    requires
        is_grid_rows(n, a),
        is_grid_rows(n, b),
    ensures
        a == b,
{
    if a < b {
        assert((n % b) != 0);
    } else if b < a {
        assert((n % a) != 0);
    }
}

/// For every `n >= 1` some value satisfies `is_grid_rows`, and `grid_rows`
/// picks it; rows times columns give `n` back.
pub proof fn lemma_grid_rows_spec(n: nat)
    requires
        n >= 1,
    ensures
        is_grid_rows(n, grid_rows(n)),
        grid_rows(n) * grid_cols(n) == n,
        grid_rows(n) <= grid_cols(n),
{
    lemma_best_rows_upto(n, n);
    let r = grid_rows(n);
    assert forall|d: nat| r < d && d * d <= n implies #[trigger] (n % d) != 0 by {
        if d > n {
            lemma_square_monotone((n + 1) as int, d as int);
            assert((n + 1) * (n + 1) > n) by (nonlinear_arith);
        }
    }
    vstd::arithmetic::div_mod::lemma_fundamental_div_mod(n as int, r as int);
    assert(r * grid_cols(n) == n);
    if grid_cols(n) < r {
        assert(r * grid_cols(n) < r * r) by (nonlinear_arith)
            requires
                grid_cols(n) < r,
                r >= 1,
        ;
    }
}

proof fn lemma_best_rows_upto(n: nat, k: nat)
    requires
        n >= 1,
        k >= 1,
    ensures
        1 <= best_rows_upto(n, k) <= k,
        best_rows_upto(n, k) * best_rows_upto(n, k) <= n,
        n % best_rows_upto(n, k) == 0,
        forall|d: nat|
            best_rows_upto(n, k) < d && d <= k && d * d <= n ==> #[trigger] (n % d) != 0,
    decreases k,
{
    if k <= 1 {
        assert(1nat * 1nat == 1nat);
    } else if !(k * k <= n && n % k == 0) {
        lemma_best_rows_upto(n, (k - 1) as nat);
    }
}

/// Grid layout for saddle stitch, the most square one: `(rows, cols)` where
/// `rows` is the largest divisor of `pages_per_sheet` whose square does not
/// exceed it, and `rows * cols == pages_per_sheet`; `(1, 1)` for zero.
pub fn calculate_saddle_stitch_grid(pages_per_sheet: usize) -> (res: (usize, usize))
    ensures
        res.0 == grid_rows(pages_per_sheet as nat),
        res.1 == grid_cols(pages_per_sheet as nat),
        pages_per_sheet > 0 ==> res.0 * res.1 == pages_per_sheet,
        res.0 <= res.1,
{
    let p = pages_per_sheet;
    if p == 0 {
        return (1, 1);
    }
    let mut best: usize = 1;
    let mut d: usize = 2;
    proof {
        lemma_square_bounds(p as int, 1);
    }
    while d <= p / d
        invariant
            p >= 1,
            1 <= best < d,
            2 <= d <= p + 1,
            best * best <= p,
            p % best == 0,
            forall|e: nat| best < e && e < d && e * e <= p ==> #[trigger] ((p as nat) % e) != 0,
        decreases p + 1 - d,
    {
        proof {
            lemma_square_bounds(p as int, d as int);
            vstd::arithmetic::div_mod::lemma_div_is_ordered_by_denominator(p as int, 2, d as int);
            assert(p / d <= p / 2);
        }
        if p % d == 0 {
            best = d;
        }
        d = d + 1;
    }
    proof {
        lemma_square_bounds(p as int, d as int);
        assert forall|e: nat| best < e && e * e <= p implies #[trigger] ((p as nat) % e) != 0 by {
            if e >= d {
                lemma_square_monotone(d as int, e as int);
            }
        }
        assert(is_grid_rows(p as nat, best as nat));
        lemma_grid_rows_spec(p as nat);
        lemma_grid_rows_unique(p as nat, best as nat, grid_rows(p as nat));
    }
    (best, p / best)
}


/// Grid layout `(rows, cols)` for an n-up output page: the most square
/// factorisation of `pages_per_sheet` (`rows` the largest divisor whose
/// square does not exceed it), oriented landscape (`cols >= rows`);
/// `(1, 1)` for zero.
pub fn calculate_grid_layout(pages_per_sheet: usize) -> (res: (usize, usize))
    ensures
        res.0 == grid_rows(pages_per_sheet as nat),
        res.1 == grid_cols(pages_per_sheet as nat),
        pages_per_sheet > 0 ==> res.0 * res.1 == pages_per_sheet,
        res.0 <= res.1,
{
    let (rows, cols) = calculate_saddle_stitch_grid(pages_per_sheet);
    // Prefer landscape: ensure cols >= rows
    if rows > cols {
        (cols, rows)
    } else {
        (rows, cols)
    }
}


/// An odd divisor of a power of two is 1.
proof fn lemma_odd_divisor_of_pow2(n: nat, d: nat, e: nat)
    requires
        is_pow2(n),
        d * e == n,
        d % 2 == 1,
    ensures
        d == 1,
    decreases n,
{
    if n == 1 {
        assert(d == 1) by (nonlinear_arith)
            requires
                d * e == 1,
                d % 2 == 1,
        ;
    } else {
        assert(n % 2 == 0 && is_pow2(n / 2));
        let a = d / 2;
        let b = e / 2;
        vstd::arithmetic::div_mod::lemma_fundamental_div_mod(d as int, 2);
        vstd::arithmetic::div_mod::lemma_fundamental_div_mod(e as int, 2);
        if e % 2 == 1 {
            assert(d * e == 2 * (2 * a * b + a + b) + 1) by (nonlinear_arith)
                requires
                    d == 2 * a + 1,
                    e == 2 * b + 1,
            ;
            vstd::arithmetic::div_mod::lemma_fundamental_div_mod_converse(
                (d * e) as int,
                2,
                (2 * a * b + a + b) as int,
                1,
            );
        } else {
            assert(d * b * 2 == n) by (nonlinear_arith)
                requires
                    e == 2 * b,
                    d * e == n,
            ;
            assert(d * b == n / 2);
            lemma_odd_divisor_of_pow2(n / 2, d, b);
        }
    }
}

/// For a power of two from 2 on, the grid has an even number of columns.
pub proof fn lemma_pow2_grid_even_cols(p: nat)
    requires
        is_pow2(p),
        p >= 2,
    ensures
        grid_cols(p) % 2 == 0,
{
    lemma_grid_rows_spec(p);
    let r = grid_rows(p);
    let c = grid_cols(p);
    if c % 2 == 1 {
        assert(c * r == p) by (nonlinear_arith)
            requires
                r * c == p,
        ;
        lemma_odd_divisor_of_pow2(p, c, r);
        assert(r == p);
        assert(r * c == r);
    }
}


/// A source page placed in a slot of a side: its slot index, the slot's row
/// and column in the grid, and the page's index among the source pages.
#[derive(Debug, Clone, Copy, PartialEq, Eq, Structural)]
pub struct SlotPlacement {
    /// Index of the slot on the side (row by row, left to right)
    pub slot: usize,
    /// Row of the slot (top row 0)
    pub row: usize,
    /// Column of the slot (left column 0)
    pub col: usize,
    /// Index of the source page (page number minus one)
    pub source_index: usize,
}

/// The placements of the first `k` slots of a side: each slot holding a page
/// of `1..=num_source` in turn; blanks and pages past the document are
/// skipped.
pub open spec fn placements_upto(page_nums: Seq<usize>, num_source: nat, cols: nat, k: nat) -> Seq<
    SlotPlacement,
>
    decreases k,
{
    if k == 0 {
        Seq::empty()
    } else {
        let prev = placements_upto(page_nums, num_source, cols, (k - 1) as nat);
        let slot = k - 1;
        let page = page_nums[slot];
        if 0 < page <= num_source {
            prev.push(
                SlotPlacement {
                    slot: slot as usize,
                    row: (slot / (cols as int)) as usize,
                    col: (slot % (cols as int)) as usize,
                    source_index: (page - 1) as usize,
                },
            )
        } else {
            prev
        }
    }
}

/// What every placement list of a side satisfies: each placement is a slot
/// of the side in grid position (`row * cols + col == slot`, `col < cols`)
/// whose page `page_nums[slot]` is a page of the document and is the
/// placement's source page plus one; the slots come in increasing order; and
/// every slot holding a page of the document is placed.
pub open spec fn placements_laid_out(
    placements: Seq<SlotPlacement>,
    page_nums: Seq<usize>,
    num_source: nat,
    cols: nat,
    k: nat,
) -> bool {
    &&& forall|x: int|
        0 <= x < placements.len() ==> {
            let pl = #[trigger] placements[x];
            &&& pl.slot < k
            &&& pl.row * cols + pl.col == pl.slot
            &&& pl.col < cols
            &&& 0 < page_nums[pl.slot as int] <= num_source
            &&& pl.source_index + 1 == page_nums[pl.slot as int]
        }
    &&& forall|x: int, y: int|
        0 <= x < y < placements.len() ==> (#[trigger] placements[x]).slot < (
        #[trigger] placements[y]).slot
    &&& forall|slot: int|
        0 <= slot < k && 0 < #[trigger] page_nums[slot] <= num_source ==> exists|x: int|
            0 <= x < placements.len() && #[trigger] placements[x].slot == slot
}

/// The placements of a side lie in the grid, each in its own slot, and
/// cover exactly the slots that hold a page of the document, in slot order.
pub proof fn lemma_placements_laid_out(page_nums: Seq<usize>, num_source: nat, cols: nat, k: nat)
    requires
        cols > 0,
        k <= page_nums.len(),
        page_nums.len() <= usize::MAX,
    ensures
        placements_laid_out(
            placements_upto(page_nums, num_source, cols, k),
            page_nums,
            num_source,
            cols,
            k,
        ),
    decreases k,
{
    if k > 0 {
        let t = (k - 1) as nat;
        lemma_placements_laid_out(page_nums, num_source, cols, t);
        let prev = placements_upto(page_nums, num_source, cols, t);
        let cur = placements_upto(page_nums, num_source, cols, k);
        let slot = t as int;
        let page = page_nums[slot];
        vstd::arithmetic::div_mod::lemma_fundamental_div_mod(slot, cols as int);
        assert((slot / (cols as int)) * cols + slot % (cols as int) == slot) by (nonlinear_arith)
            requires
                slot == (cols as int) * (slot / (cols as int)) + slot % (cols as int),
        ;
        assert(slot / (cols as int) >= 0) by (nonlinear_arith)
            requires
                slot >= 0,
                cols > 0,
        ;
        assert(slot / (cols as int) <= slot) by (nonlinear_arith)
            requires
                slot >= 0,
                cols > 0,
        ;
        if 0 < page <= num_source {
            let pl = cur[prev.len() as int];
            assert(cur == prev.push(pl));
            assert forall|s2: int|
                0 <= s2 < k && 0 < #[trigger] page_nums[s2] <= num_source implies exists|x: int|
                0 <= x < cur.len() && #[trigger] cur[x].slot == s2 by {
                if s2 < t {
                    let x = choose|x: int| 0 <= x < prev.len() && #[trigger] prev[x].slot == s2;
                    assert(cur[x] == prev[x]);
                } else {
                    assert(cur[prev.len() as int].slot == s2);
                }
            }
        } else {
            assert forall|s2: int|
                0 <= s2 < k && 0 < #[trigger] page_nums[s2] <= num_source implies exists|x: int|
                0 <= x < cur.len() && #[trigger] cur[x].slot == s2 by {
                let x = choose|x: int| 0 <= x < prev.len() && #[trigger] prev[x].slot == s2;
            }
        }
    }
}

/// Where the pages of one side go: for each slot, in order, that holds a
/// page of the document (`0 < page <= num_source_pages`), its row
/// (`slot / cols`), column (`slot % cols`) and source index (`page - 1`).
pub fn sheet_placements(page_nums: &[usize], num_source_pages: usize, cols: usize) -> (res: Vec<
    SlotPlacement,
>)
    requires
        cols > 0,
    ensures
        res@ == placements_upto(page_nums@, num_source_pages as nat, cols as nat, page_nums@.len()),
        placements_laid_out(res@, page_nums@, num_source_pages as nat, cols as nat, page_nums@.len()),
{
    proof {
        assert(page_nums@.len() == page_nums.len());
        lemma_placements_laid_out(page_nums@, num_source_pages as nat, cols as nat, page_nums@.len());
    }
    let mut res: Vec<SlotPlacement> = Vec::new();
    let mut slot: usize = 0;
    while slot < page_nums.len()
        invariant
            cols > 0,
            slot <= page_nums@.len(),
            res@ == placements_upto(page_nums@, num_source_pages as nat, cols as nat, slot as nat),
        decreases page_nums@.len() - slot,
    {
        let page_num = page_nums[slot];
        if page_num > 0 && page_num <= num_source_pages {
            res.push(
                SlotPlacement { slot, row: slot / cols, col: slot % cols, source_index: page_num - 1 },
            );
        }
        slot = slot + 1;
    }
    res
}


/// A grid of `r * r` pages is square.
pub proof fn lemma_grid_square(r: nat)
    requires
        r >= 1,
    ensures
        grid_rows(r * r) == r,
        grid_cols(r * r) == r,
{
    let p = r * r;
    assert(p >= 1) by (nonlinear_arith)
        requires
            r >= 1,
            p == r * r,
    ;
    vstd::arithmetic::div_mod::lemma_fundamental_div_mod_converse(p as int, r as int, r as int, 0);
    assert forall|d: nat| r < d && d * d <= p implies #[trigger] (p % d) != 0 by {
        lemma_square_monotone((r + 1) as int, d as int);
        assert((r + 1) * (r + 1) > r * r) by (nonlinear_arith);
    }
    assert(is_grid_rows(p, r));
    lemma_grid_rows_spec(p);
    lemma_grid_rows_unique(p, r, grid_rows(p));
    vstd::arithmetic::div_mod::lemma_fundamental_div_mod_converse(p as int, r as int, r as int, 0);
}

/// A divisor of a power of two is a power of two.
proof fn lemma_divisor_of_pow2(n: nat, d: nat, e: nat)
    requires
        is_pow2(n),
        d * e == n,
    ensures
        is_pow2(d),
    decreases n,
{
    if d % 2 == 1 {
        lemma_odd_divisor_of_pow2(n, d, e);
    } else {
        if n == 1 {
            assert(d * e == 1);
            assert(d == 1) by (nonlinear_arith)
                requires
                    d * e == 1,
            ;
        } else {
            assert(n % 2 == 0 && is_pow2(n / 2));
            let h = d / 2;
            vstd::arithmetic::div_mod::lemma_fundamental_div_mod(d as int, 2);
            if d == 0 {
                assert(d * e == 0);
            }
            assert(h * e * 2 == n) by (nonlinear_arith)
                requires
                    d == 2 * h,
                    d * e == n,
            ;
            assert(h * e == n / 2);
            lemma_divisor_of_pow2(n / 2, h, e);
        }
    }
}

/// Of two powers of two, the larger is the smaller times a power of two.
proof fn lemma_pow2_ratio(a: nat, b: nat)
    requires
        is_pow2(a),
        is_pow2(b),
        a <= b,
    ensures
        b % a == 0,
        is_pow2(b / a),
    decreases a,
{
    if a == 1 {
        assert(b / 1 == b);
    } else {
        assert(a % 2 == 0 && is_pow2(a / 2));
        assert(b % 2 == 0 && is_pow2(b / 2));
        let a2 = a / 2;
        let b2 = b / 2;
        lemma_pow2_ratio(a2, b2);
        let k = b2 / a2;
        vstd::arithmetic::div_mod::lemma_fundamental_div_mod(b2 as int, a2 as int);
        assert(b == a * k) by (nonlinear_arith)
            requires
                b == 2 * b2,
                a == 2 * a2,
                b2 == a2 * k,
        ;
        vstd::arithmetic::div_mod::lemma_fundamental_div_mod_converse(b as int, a as int, k as int, 0);
    }
}

/// For a power of two the grid is square or twice as wide as it is high.
pub proof fn lemma_pow2_grid_shape(p: nat)
    requires
        is_pow2(p),
    ensures
        grid_cols(p) == grid_rows(p) || grid_cols(p) == 2 * grid_rows(p),
{
    lemma_grid_rows_spec(p);
    let r = grid_rows(p);
    let c = grid_cols(p);
    lemma_divisor_of_pow2(p, r, c);
    assert(c * r == p) by (nonlinear_arith)
        requires
            r * c == p,
    ;
    lemma_divisor_of_pow2(p, c, r);
    lemma_pow2_ratio(r, c);
    let k = c / r;
    vstd::arithmetic::div_mod::lemma_fundamental_div_mod(c as int, r as int);
    assert(c == r * k);
    if k != 1 && k != 2 {
        assert(k >= 1) by (nonlinear_arith)
            requires
                c == r * k,
                c >= r,
                r >= 1,
        ;
        assert(k % 2 == 0 && is_pow2(k / 2));
        assert(k >= 4);
        let d = 2 * r;
        let e = r * (k / 2);
        vstd::arithmetic::div_mod::lemma_fundamental_div_mod(k as int, 2);
        assert(d * e == p) by (nonlinear_arith)
            requires
                d == 2 * r,
                e == r * (k / 2),
                k == 2 * (k / 2),
                c == r * k,
                r * c == p,
        ;
        assert(d * d <= p) by (nonlinear_arith)
            requires
                d == 2 * r,
                k >= 4,
                c == r * k,
                r * c == p,
                r >= 1,
        ;
        vstd::arithmetic::div_mod::lemma_fundamental_div_mod_converse(p as int, d as int, e as int, 0);
        assert((p % d) != 0);
    } else if k == 1 {
        assert(c == r) by (nonlinear_arith)
            requires
                c == r * k,
                k == 1,
        ;
    } else {
        assert(c == 2 * r) by (nonlinear_arith)
            requires
                c == r * k,
                k == 2,
        ;
    }
}

} // verus!
