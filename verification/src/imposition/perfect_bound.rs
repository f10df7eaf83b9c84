//! Perfect binding: signatures, each nested like a saddle stitch booklet,
//! stacked one behind the other.

use vstd::prelude::*;

use crate::config::{is_pow2, is_power_of_two};
use crate::imposition::grid::{calculate_saddle_stitch_grid, grid_cols, grid_rows, lemma_grid_rows_spec};
use crate::imposition::saddle_stitch::{
    calculate_saddle_stitch_order,
    div_ceil,
    lemma_div_ceil_cover,
    lemma_saddle_stitch_shape,
    lemma_saddle_stitch_each_page_once,
    lemma_saddle_stitch_side_count,
    lemma_side_capacity,
    lemma_total_sides_within,
    pages_distinct,
    saddle_stitch_order,
    shows_page,
    ss_fits,
    ss_per_sheet,
    ss_total_sides,
};
use crate::imposition::grid::lemma_pow2_grid_even_cols;

verus! {

/// A signature-local page `v` as a page of the whole document: the
/// signature starts at page `start` and holds `count` pages. With `bounded`,
/// a page past `count` becomes a blank; blanks stay blanks.
pub open spec fn shift_page(v: usize, start: int, count: int, bounded: bool) -> usize {
    if v == 0 {
        0
    } else if bounded && v > count {
        0
    } else {
        (start + v - 1) as usize
    }
}

/// The sides of a signature, renumbered into the whole document.
pub open spec fn shift_sides(
    sides: Seq<Seq<usize>>,
    start: int,
    count: int,
    bounded: bool,
) -> Seq<Seq<usize>> {
    sides.map_values(
        |side: Seq<usize>| side.map_values(|v: usize| shift_page(v, start, count, bounded)),
    )
}

/// The inputs for which perfect binding produces sheets.
pub open spec fn pb_valid(p: nat, sps: nat) -> bool {
    p >= 2 && is_pow2(p) && sps >= 1
}

/// Physical sheets one printing sheet is cut into.
pub open spec fn pb_cut_sheets(p: nat) -> nat {
    (grid_rows(p) * grid_cols(p)) / 2
}

/// Pages per signature: enough printing sheets for `sps` physical sheets.
pub open spec fn pb_pages_per_signature(p: nat, sps: nat) -> nat {
    p * 2 * div_ceil(sps, pb_cut_sheets(p))
}

/// Number of signatures.
pub open spec fn pb_num_signatures(n: nat, p: nat, sps: nat) -> nat {
    div_ceil(n, pb_pages_per_signature(p, sps))
}

/// First page of signature `i`.
pub open spec fn pb_sig_start(p: nat, sps: nat, i: nat) -> int {
    (i * pb_pages_per_signature(p, sps) + 1) as int
}

/// Page count of signature `i`: a full signature, or what is left.
pub open spec fn pb_sig_count(n: nat, p: nat, sps: nat, i: nat) -> nat {
    let hi = (i + 1) * pb_pages_per_signature(p, sps);
    let end: int = if hi < n {
        hi as int
    } else {
        n as int
    };
    (end - pb_sig_start(p, sps, i) + 1) as nat
}

/// Sides of signature `i`.
pub open spec fn pb_signature(n: nat, p: nat, sps: nat, i: nat) -> Seq<Seq<usize>> {
    shift_sides(
        saddle_stitch_order(pb_sig_count(n, p, sps, i), p),
        pb_sig_start(p, sps, i),
        pb_sig_count(n, p, sps, i) as int,
        false,
    )
}

/// Sides of the first `k` signatures, stacked.
pub open spec fn pb_upto(n: nat, p: nat, sps: nat, k: nat) -> Seq<Seq<usize>>
    decreases k,
{
    if k == 0 {
        Seq::empty()
    } else {
        pb_upto(n, p, sps, (k - 1) as nat) + pb_signature(n, p, sps, (k - 1) as nat)
    }
}

/// The perfect bound ordering of `n` pages, `p` per side, `sps` physical
/// sheets per signature.
pub open spec fn perfect_bound_order(n: nat, p: nat, sps: nat) -> Seq<Seq<usize>> {
    if !pb_valid(p, sps) || n == 0 {
        Seq::empty()
    } else {
        pb_upto(n, p, sps, pb_num_signatures(n, p, sps))
    }
}

/// The inputs whose page numbers and slot counts fit in a `usize`.
pub open spec fn pb_fits(n: nat, p: nat, sps: nat) -> bool {
    !pb_valid(p, sps) || n == 0 || pb_num_signatures(n, p, sps) * pb_pages_per_signature(p, sps)
        <= usize::MAX
}

/// Appends `sides`, renumbered to start at page `start`, to `result`.
fn append_shifted(
    result: &mut Vec<Vec<usize>>,
    sides: &Vec<Vec<usize>>,
    start: usize,
    count: usize,
    bounded: bool,
)
    requires
        start >= 1,
        start - 1 + count <= usize::MAX,
        forall|i: int, k: int|
            0 <= i < sides@.len() && 0 <= k < sides@[i]@.len() ==> bounded || #[trigger] sides@[i]@[k]
                <= count,
    ensures
        final(result)@.len() == old(result)@.len() + sides@.len(),
        forall|i: int|
            0 <= i < old(result)@.len() ==> #[trigger] final(result)@[i] == old(result)@[i],
        forall|i: int|
            0 <= i < sides@.len() ==> #[trigger] final(result)@[old(result)@.len() + i]@
                == sides@[i]@.map_values(|v: usize| shift_page(v, start as int, count as int, bounded)),
{
    let ghost before = result@;
    let mut i: usize = 0;
    while i < sides.len()
        invariant
            start >= 1,
            start - 1 + count <= usize::MAX,
            forall|i: int, k: int|
                0 <= i < sides@.len() && 0 <= k < sides@[i]@.len() ==> bounded
                    || #[trigger] sides@[i]@[k] <= count,
            i <= sides@.len(),
            result@.len() == before.len() + i,
            forall|j: int| 0 <= j < before.len() ==> #[trigger] result@[j] == before[j],
            forall|j: int|
                0 <= j < i ==> #[trigger] result@[before.len() + j]@ == sides@[j]@.map_values(
                    |v: usize| shift_page(v, start as int, count as int, bounded),
                ),
        decreases sides@.len() - i,
    {
        let side = &sides[i];
        proof {
            assert forall|kk: int| 0 <= kk < side@.len() implies bounded || #[trigger] side@[kk]
                <= count by {
                assert(sides@[i as int]@[kk] == side@[kk]);
            }
        }
        let mut shifted: Vec<usize> = Vec::new();
        let mut k: usize = 0;
        while k < side.len()
            invariant
                start >= 1,
                start - 1 + count <= usize::MAX,
                forall|kk: int| 0 <= kk < side@.len() ==> bounded || #[trigger] side@[kk] <= count,
                k <= side@.len(),
                shifted@ == side@.take(k as int).map_values(
                    |v: usize| shift_page(v, start as int, count as int, bounded),
                ),
            decreases side@.len() - k,
        {
            let page = side[k];
            proof {
                assert(page == side@[k as int]);
                assert(bounded || page <= count);
            }
            let global = if page == 0 {
                0
            } else if bounded && page > count {
                0
            } else {
                (start - 1) + page
            };
            shifted.push(global);
            proof {
                assert(side@.take(k + 1) =~= side@.take(k as int).push(page));
            }
            k = k + 1;
        }
        proof {
            assert(side@.take(side@.len() as int) =~= side@);
        }
        result.push(shifted);
        i = i + 1;
    }
}

/// Calculate page ordering for perfect bound booklets.
///
/// Pages are grouped into signatures of
/// `pages_per_sheet * 2 * ceil(sheets_per_signature / cut sheets)` pages,
/// where a printing sheet is cut into `rows * cols / 2` physical sheets.
/// Each signature is ordered as a saddle stitch booklet of its own pages and
/// the signatures are stacked in order. Invalid parameters (fewer than 2 or
/// a non power of two pages per sheet, no sheets per signature) or no pages
/// give no sides.
pub fn calculate_perfect_bound_order(
    num_pages: usize,
    pages_per_sheet: usize,
    sheets_per_signature: usize,
) -> (res: Vec<Vec<usize>>)
    requires
        pb_fits(num_pages as nat, pages_per_sheet as nat, sheets_per_signature as nat),
    ensures
        res@.len() == perfect_bound_order(
            num_pages as nat,
            pages_per_sheet as nat,
            sheets_per_signature as nat,
        ).len(),
        forall|i: int|
            0 <= i < res@.len() ==> #[trigger] res@[i]@ == perfect_bound_order(
                num_pages as nat,
                pages_per_sheet as nat,
                sheets_per_signature as nat,
            )[i],
{
    if pages_per_sheet < 2 || !is_power_of_two(pages_per_sheet) || sheets_per_signature < 1 {
        return Vec::new();
    }
    if num_pages == 0 {
        return Vec::new();
    }
    let ghost n = num_pages as nat;
    let ghost p = pages_per_sheet as nat;
    let ghost sps = sheets_per_signature as nat;

    // Physical sheets produced from one printing sheet.
    let (grid_rows_n, grid_cols_n) = calculate_saddle_stitch_grid(pages_per_sheet);
    let physical_sheets_per_printing_sheet = (grid_rows_n * grid_cols_n) / 2;
    proof {
        lemma_pps_positive(p, sps);
        assert(physical_sheets_per_printing_sheet == pb_cut_sheets(p));
        if physical_sheets_per_printing_sheet > 1 {
            vstd::arithmetic::div_mod::lemma_div_is_ordered_by_denominator(
                sheets_per_signature as int,
                2,
                physical_sheets_per_printing_sheet as int,
            );
        }
    }
    // Printing sheets per signature for the requested physical sheets.
    let printing_sheets_per_signature = if sheets_per_signature % physical_sheets_per_printing_sheet
        == 0 {
        sheets_per_signature / physical_sheets_per_printing_sheet
    } else {
        sheets_per_signature / physical_sheets_per_printing_sheet + 1
    };
    let ghost pps = pb_pages_per_signature(p, sps);
    let ghost nsig = pb_num_signatures(n, p, sps);
    proof {
        assert(printing_sheets_per_signature == div_ceil(sps, pb_cut_sheets(p)));
        lemma_div_ceil_cover(n, pps);
        if nsig == 0 {
            assert(nsig * pps == 0) by (nonlinear_arith)
                requires
                    nsig == 0,
            ;
        }
        assert(nsig * pps >= pps) by (nonlinear_arith)
            requires
                nsig >= 1,
        ;
        assert(nsig * pps >= nsig) by (nonlinear_arith)
            requires
                pps >= 1,
        ;
    }
    let pages_per_signature = pages_per_sheet * 2 * printing_sheets_per_signature;
    let total_signatures = if num_pages % pages_per_signature == 0 {
        num_pages / pages_per_signature
    } else {
        num_pages / pages_per_signature + 1
    };

    proof {
        assert(pages_per_signature == pps);
        assert(total_signatures == nsig);
        assert(pps >= 2 * p);
        assert(nsig * pps <= usize::MAX);
    }
    let mut result: Vec<Vec<usize>> = Vec::new();
    let mut sig_idx: usize = 0;
    while sig_idx < total_signatures
        invariant
            n == num_pages,
            p == pages_per_sheet,
            sps == sheets_per_signature,
            pb_valid(p, sps),
            n >= 1,
            pps == pages_per_signature,
            pps == pb_pages_per_signature(p, sps),
            nsig == pb_num_signatures(n, p, sps),
            pps >= 2 * p,
            nsig == total_signatures,
            nsig * pps <= usize::MAX,
            sig_idx <= nsig,
            result@.len() == pb_upto(n, p, sps, sig_idx as nat).len(),
            forall|j: int|
                0 <= j < result@.len() ==> #[trigger] result@[j]@ == pb_upto(
                    n,
                    p,
                    sps,
                    sig_idx as nat,
                )[j],
        decreases nsig - sig_idx,
    {
        proof {
            lemma_signature_bounds(n, p, sps, sig_idx as nat);
        }
        let signature_start = sig_idx * pages_per_signature + 1;
        let hi = (sig_idx + 1) * pages_per_signature;
        let signature_end = if hi < num_pages {
            hi
        } else {
            num_pages
        };
        let signature_page_count = signature_end - signature_start + 1;
        // Saddle stitch ordering of this signature's own pages.
        let signature_ordering = calculate_saddle_stitch_order(
            signature_page_count,
            pages_per_sheet,
        );
        proof {
            lemma_saddle_stitch_shape(signature_page_count as nat, p);
        }
        let ghost prev = result@;
        append_shifted(
            &mut result,
            &signature_ordering,
            signature_start,
            signature_page_count,
            false,
        );
        proof {
            let upto = pb_upto(n, p, sps, (sig_idx + 1) as nat);
            let sig = pb_signature(n, p, sps, sig_idx as nat);
            assert(upto == pb_upto(n, p, sps, sig_idx as nat) + sig);
            assert forall|j: int| 0 <= j < result@.len() implies #[trigger] result@[j]@
                == upto[j] by {
                if j >= prev.len() {
                    let i = j - prev.len();
                    assert(result@[prev.len() + i]@ == signature_ordering@[i]@.map_values(
                        |v: usize| shift_page(v, signature_start as int, signature_page_count as int, false),
                    ));
                }
            }
        }
        sig_idx = sig_idx + 1;
    }
    result
}

/// Pages per signature is at least two sides' worth.
proof fn lemma_pps_positive(p: nat, sps: nat)
    requires
        pb_valid(p, sps),
    ensures
        pb_cut_sheets(p) >= 1,
        div_ceil(sps, pb_cut_sheets(p)) >= 1,
        pb_pages_per_signature(p, sps) >= 2 * p,
        pb_pages_per_signature(p, sps) % p == 0,
        (pb_pages_per_signature(p, sps) / p) % 2 == 0,
{
    lemma_grid_rows_spec(p);
    let cut = pb_cut_sheets(p);
    assert(cut >= 1);
    let k = div_ceil(sps, cut);
    vstd::arithmetic::div_mod::lemma_fundamental_div_mod(sps as int, cut as int);
    if k == 0 {
        assert(sps / cut == 0);
        assert(sps == cut * 0 + 0);
    }
    assert(p * 2 * k >= 2 * p) by (nonlinear_arith)
        requires
            k >= 1,
    ;
    assert(p * 2 * k == p * (2 * k)) by (nonlinear_arith);
    vstd::arithmetic::div_mod::lemma_fundamental_div_mod_converse(
        (p * (2 * k)) as int,
        p as int,
        (2 * k) as int,
        0,
    );
}

/// Signature `i < num_signatures` starts within the document and fits.
proof fn lemma_signature_bounds(n: nat, p: nat, sps: nat, i: nat)
    requires
        pb_valid(p, sps),
        n >= 1,
        i < pb_num_signatures(n, p, sps),
        pb_num_signatures(n, p, sps) * pb_pages_per_signature(p, sps) <= usize::MAX,
    ensures
        (i + 1) * pb_pages_per_signature(p, sps) <= usize::MAX,
        (i + 1) * pb_pages_per_signature(p, sps) == i * pb_pages_per_signature(p, sps)
            + pb_pages_per_signature(p, sps),
        pb_sig_start(p, sps, i) <= n,
        1 <= pb_sig_count(n, p, sps, i) <= pb_pages_per_signature(p, sps),
        pb_sig_start(p, sps, i) - 1 + pb_sig_count(n, p, sps, i) <= n,
        ss_fits(pb_sig_count(n, p, sps, i), p),
{
    lemma_pps_positive(p, sps);
    let pps = pb_pages_per_signature(p, sps);
    let nsig = pb_num_signatures(n, p, sps);
    vstd::arithmetic::div_mod::lemma_fundamental_div_mod(n as int, pps as int);
    assert((i + 1) * pps <= nsig * pps) by (nonlinear_arith)
        requires
            i + 1 <= nsig,
    ;
    assert(i * pps + pps == (i + 1) * pps) by (nonlinear_arith);
    // i * pps < n
    if i * pps >= n {
        if n % pps == 0 {
            assert(i >= n / pps) by (nonlinear_arith)
                requires
                    i * pps >= n,
                    n == pps * (n / pps),
                    pps >= 1,
            ;
        } else {
            assert(i >= n / pps + 1) by (nonlinear_arith)
                requires
                    i * pps >= n,
                    n == pps * (n / pps) + n % pps,
                    n % pps > 0,
                    pps >= 1,
            ;
        }
    }
    let count = pb_sig_count(n, p, sps, i);
    vstd::arithmetic::div_mod::lemma_fundamental_div_mod(pps as int, p as int);
    let m = pps / p;
    assert(m * p == pps) by (nonlinear_arith)
        requires
            pps == p * m + 0,
    ;
    lemma_pow2_grid_even_cols(p);
    lemma_side_capacity(p);
    lemma_total_sides_within(count, p, m);
}


// ---------------------------------------------------------------------------
// A given number of signatures.
// ---------------------------------------------------------------------------

/// Signature `j` (of `ns`) received one of the first `i` leftover pages.
/// Leftover page `i` goes to `centre - i / 2` for even `i` and to
/// `centre + (i + 1) / 2` for odd `i`, with `centre = ns / 2`.
pub open spec fn sig_bonus(ns: nat, j: int, i: int) -> bool {
    let c = (ns / 2) as int;
    if j <= c {
        2 * (c - j) < i
    } else {
        2 * (j - c) - 1 < i
    }
}

/// Signature receiving leftover page `i`.
pub open spec fn sig_bonus_target(ns: nat, i: int) -> int {
    let c = (ns / 2) as int;
    if i % 2 == 0 {
        c - i / 2
    } else {
        c + (i + 1) / 2
    }
}

/// Pages in signature `j`: an even share, plus one leftover page for the
/// signatures nearest the centre.
pub open spec fn sig_size(n: nat, ns: nat, j: int) -> nat {
    n / ns + if sig_bonus(ns, j, (n % ns) as int) {
        1nat
    } else {
        0nat
    }
}

/// First page of signature `j`.
pub open spec fn sig_start(n: nat, ns: nat, j: nat) -> int
    decreases j,
{
    if j == 0 {
        1
    } else {
        sig_start(n, ns, (j - 1) as nat) + sig_size(n, ns, j - 1)
    }
}

/// Sides of signature `j` (none for an empty signature).
pub open spec fn sc_signature(n: nat, p: nat, ns: nat, j: nat) -> Seq<Seq<usize>> {
    let size = sig_size(n, ns, j as int);
    if size == 0 {
        Seq::empty()
    } else {
        shift_sides(saddle_stitch_order(size, p), sig_start(n, ns, j), size as int, true)
    }
}

/// Sides of the first `k` signatures, stacked.
pub open spec fn sc_upto(n: nat, p: nat, ns: nat, k: nat) -> Seq<Seq<usize>>
    decreases k,
{
    if k == 0 {
        Seq::empty()
    } else {
        sc_upto(n, p, ns, (k - 1) as nat) + sc_signature(n, p, ns, (k - 1) as nat)
    }
}

/// The inputs for which a signature count produces sheets.
pub open spec fn sc_valid(n: nat, p: nat, ns: nat) -> bool {
    p >= 2 && is_pow2(p) && ns >= 1 && n >= 1
}

/// The perfect bound ordering of `n` pages, `p` per side, in `ns`
/// signatures.
pub open spec fn signature_count_order(n: nat, p: nat, ns: nat) -> Seq<Seq<usize>> {
    if !sc_valid(n, p, ns) {
        Seq::empty()
    } else {
        sc_upto(n, p, ns, ns)
    }
}

/// The inputs whose page numbers, one past the last page, and largest
/// signature's slots fit in a `usize`.
pub open spec fn sc_fits(n: nat, p: nat, ns: nat) -> bool {
    !sc_valid(n, p, ns) || (n < usize::MAX && ss_fits(div_ceil(n, ns), p))
}

/// Number of signatures below `k` that received one of the first `i`
/// leftover pages.
pub open spec fn bonus_count(ns: nat, i: int, k: nat) -> nat
    decreases k,
{
    if k == 0 {
        0
    } else {
        bonus_count(ns, i, (k - 1) as nat) + if sig_bonus(ns, k - 1, i) {
            1nat
        } else {
            0nat
        }
    }
}

/// Leftover page `i < ns - 1` goes to a signature in range, which has not
/// received one before; receiving the first `i + 1` is receiving the first
/// `i` or being its target.
proof fn lemma_bonus_step(ns: nat, i: int, j: int)
    requires
        ns >= 1,
        0 <= i < ns - 1,
    ensures
        0 <= sig_bonus_target(ns, i) < ns,
        !sig_bonus(ns, sig_bonus_target(ns, i), i),
        sig_bonus(ns, j, i + 1) == (sig_bonus(ns, j, i) || j == sig_bonus_target(ns, i)),
{
}

/// Counting the targets of leftover pages below `k`.
proof fn lemma_bonus_count_step(ns: nat, i: int, k: nat)
    requires
        ns >= 1,
        0 <= i < ns - 1,
    ensures
        bonus_count(ns, i + 1, k) == bonus_count(ns, i, k) + if sig_bonus_target(ns, i) < k {
            1nat
        } else {
            0nat
        },
    decreases k,
{
    if k > 0 {
        lemma_bonus_count_step(ns, i, (k - 1) as nat);
        lemma_bonus_step(ns, i, k - 1);
    }
}

/// All `i` leftover pages land on distinct signatures among the `ns`.
proof fn lemma_bonus_count_total(ns: nat, i: int)
    requires
        ns >= 1,
        0 <= i <= ns - 1,
    ensures
        bonus_count(ns, i, ns) == i,
    decreases i,
{
    if i == 0 {
        lemma_bonus_count_zero(ns, ns);
    } else {
        lemma_bonus_count_total(ns, i - 1);
        lemma_bonus_count_step(ns, i - 1, ns);
        lemma_bonus_step(ns, i - 1, 0);
    }
}

proof fn lemma_bonus_count_zero(ns: nat, k: nat)
    ensures
        bonus_count(ns, 0, k) == 0,
    decreases k,
{
    if k > 0 {
        lemma_bonus_count_zero(ns, (k - 1) as nat);
    }
}

/// The counted signatures below `k` are at most those below `k + 1`.
proof fn lemma_bonus_count_monotone(ns: nat, i: int, k: nat, m: nat)
    requires
        k <= m,
    ensures
        bonus_count(ns, i, k) <= bonus_count(ns, i, m),
    decreases m - k,
{
    if k < m {
        lemma_bonus_count_monotone(ns, i, k, (m - 1) as nat);
    }
}

/// Where signature `j` starts: after `j` even shares and the leftover pages
/// given to signatures before it.
proof fn lemma_sig_start(n: nat, ns: nat, j: nat)
    requires
        ns >= 1,
    ensures
        sig_start(n, ns, j) == 1 + j * (n / ns) + bonus_count(ns, (n % ns) as int, j),
    decreases j,
{
    if j == 0 {
        assert(0 * (n / ns) == 0);
    } else {
        lemma_sig_start(n, ns, (j - 1) as nat);
        let b = (n / ns) as int;
        let jj = j as int;
        let jm = (j - 1) as nat;
        assert((jj - 1) * b + b == jj * b) by (nonlinear_arith);
        assert(jm * (n / ns) == (jj - 1) * b);
        assert(j * (n / ns) == jj * b);
        assert(sig_start(n, ns, j) == sig_start(n, ns, jm) + sig_size(n, ns, jm as int));
        assert(bonus_count(ns, (n % ns) as int, j) == bonus_count(ns, (n % ns) as int, jm) + if sig_bonus(ns, jm as int, (n % ns) as int) {
            1nat
        } else {
            0nat
        });
    }
}

/// Signature `j < ns` holds pages `sig_start..sig_start + size`, all within
/// `1..=n`, and no more than `div_ceil(n, ns)` of them.
proof fn lemma_sig_range(n: nat, ns: nat, j: nat)
    requires
        ns >= 1,
        j < ns,
    ensures
        sig_start(n, ns, j) >= 1,
        sig_start(n, ns, j) - 1 + sig_size(n, ns, j as int) <= n,
        sig_start(n, ns, j) - 1 + sig_size(n, ns, j as int) == sig_start(n, ns, j + 1) - 1,
        sig_size(n, ns, j as int) <= div_ceil(n, ns),
{
    let rem = (n % ns) as int;
    lemma_sig_start(n, ns, j);
    lemma_sig_start(n, ns, j + 1);
    lemma_sig_start(n, ns, ns);
    lemma_bonus_count_total(ns, rem);
    lemma_bonus_count_monotone(ns, rem, j + 1, ns);
    vstd::arithmetic::div_mod::lemma_fundamental_div_mod(n as int, ns as int);
    assert((j + 1) * (n / ns) <= ns * (n / ns)) by (nonlinear_arith)
        requires
            j + 1 <= ns,
    ;
    if rem == 0 {
        assert(!sig_bonus(ns, j as int, 0));
    }
    let b = (n / ns) as int;
    assert(j * b >= 0) by (nonlinear_arith)
        requires
            b >= 0,
    ;
}

/// The saddle stitch slot count grows with the page count.
proof fn lemma_ss_fits_monotone(a: nat, b: nat, p: nat)
    requires
        a <= b,
        p >= 1,
        ss_fits(b, p),
    ensures
        ss_fits(a, p),
{
    if p >= 2 {
        let q = ss_per_sheet(p);
        lemma_side_capacity(p);
        lemma_div_ceil_cover(b, q);
        let m = ss_total_sides(b, p);
        assert(m * q >= div_ceil(b, q) * q) by (nonlinear_arith)
            requires
                m >= div_ceil(b, q),
        ;
        lemma_total_sides_within(a, p, m);
    }
}

/// Calculate page ordering for perfect bound booklets with a given number
/// of signatures.
///
/// `num_pages` is shared out as evenly as possible: every signature gets
/// `num_pages / num_signatures` pages, and the leftover pages go one each to
/// the signatures nearest the centre (centre, then right of it, then left,
/// and so on). Each signature is ordered as a saddle stitch booklet of its
/// own pages; empty signatures are skipped. Invalid parameters (fewer than 2
/// or a non power of two pages per sheet, no signatures) or no pages give
/// no sides.
pub fn calculate_perfect_bound_order_with_signature_count(
    num_pages: usize,
    pages_per_sheet: usize,
    num_signatures: usize,
) -> (res: Vec<Vec<usize>>)
    requires
        sc_fits(num_pages as nat, pages_per_sheet as nat, num_signatures as nat),
    ensures
        res@.len() == signature_count_order(
            num_pages as nat,
            pages_per_sheet as nat,
            num_signatures as nat,
        ).len(),
        forall|i: int|
            0 <= i < res@.len() ==> #[trigger] res@[i]@ == signature_count_order(
                num_pages as nat,
                pages_per_sheet as nat,
                num_signatures as nat,
            )[i],
{
    if pages_per_sheet < 2 || !is_power_of_two(pages_per_sheet) || num_signatures < 1
        || num_pages == 0 {
        return Vec::new();
    }
    let ghost n = num_pages as nat;
    let ghost p = pages_per_sheet as nat;
    let ghost ns = num_signatures as nat;

    let base_pages_per_sig = num_pages / num_signatures;
    let remainder = num_pages % num_signatures;

    // Even shares, then the leftover pages from the centre outward.
    let mut sig_sizes: Vec<usize> = Vec::new();
    let mut j: usize = 0;
    while j < num_signatures
        invariant
            j <= num_signatures,
            sig_sizes@.len() == j,
            forall|k: int| 0 <= k < j ==> #[trigger] sig_sizes@[k] == base_pages_per_sig,
        decreases num_signatures - j,
    {
        sig_sizes.push(base_pages_per_sig);
        j = j + 1;
    }
    proof {
        vstd::arithmetic::div_mod::lemma_fundamental_div_mod(n as int, ns as int);
        assert(base_pages_per_sig <= n) by (nonlinear_arith)
            requires
                n == ns * base_pages_per_sig + remainder,
                ns >= 1,
                remainder >= 0,
        ;
        if remainder > 0 {
            assert(2 * base_pages_per_sig <= n) by (nonlinear_arith)
                requires
                    n == ns * base_pages_per_sig + remainder,
                    ns >= 2,
                    remainder >= 0,
            ;
        }
    }
    let mut i: usize = 0;
    while i < remainder
        invariant
            ns == num_signatures,
            ns >= 1,
            n == num_pages,
            base_pages_per_sig == n / ns,
            remainder == n % ns,
            remainder > 0 ==> base_pages_per_sig < usize::MAX,
            i <= remainder,
            sig_sizes@.len() == ns,
            forall|k: int|
                0 <= k < ns ==> #[trigger] sig_sizes@[k] == base_pages_per_sig + if sig_bonus(
                    ns,
                    k,
                    i as int,
                ) {
                    1nat
                } else {
                    0nat
                },
        decreases remainder - i,
    {
        proof {
            lemma_bonus_step(ns, i as int, 0);
        }
        let centre = num_signatures / 2;
        let offset = if i % 2 == 0 {
            i / 2
        } else {
            i / 2 + 1
        };
        let is_left = i % 2 == 0;
        let idx = if is_left {
            centre - offset
        } else {
            centre + offset
        };
        if idx < num_signatures {
            sig_sizes.set(idx, sig_sizes[idx] + 1);
        }
        proof {
            assert(idx == sig_bonus_target(ns, i as int));
            assert forall|k: int| 0 <= k < ns implies #[trigger] sig_sizes@[k]
                == base_pages_per_sig + if sig_bonus(ns, k, i + 1) {
                1nat
            } else {
                0nat
            } by {
                lemma_bonus_step(ns, i as int, k);
            }
        }
        i = i + 1;
    }

    let mut result: Vec<Vec<usize>> = Vec::new();
    let mut current_page: usize = 1;
    let mut sig: usize = 0;
    while sig < num_signatures
        invariant
            ns == num_signatures,
            n == num_pages,
            p == pages_per_sheet,
            sc_valid(n, p, ns),
            sc_fits(n, p, ns),
            sig_sizes@.len() == ns,
            forall|k: int| 0 <= k < ns ==> #[trigger] sig_sizes@[k] == sig_size(n, ns, k),
            sig <= ns,
            current_page == sig_start(n, ns, sig as nat),
            result@.len() == sc_upto(n, p, ns, sig as nat).len(),
            forall|k: int|
                0 <= k < result@.len() ==> #[trigger] result@[k]@ == sc_upto(
                    n,
                    p,
                    ns,
                    sig as nat,
                )[k],
        decreases ns - sig,
    {
        proof {
            lemma_sig_range(n, ns, sig as nat);
        }
        let sig_page_count = sig_sizes[sig];
        let ghost prev = result@;
        if sig_page_count != 0 {
            let signature_start = current_page;
            proof {
                lemma_ss_fits_monotone(sig_page_count as nat, div_ceil(n, ns), p);
            }
            let signature_ordering = calculate_saddle_stitch_order(sig_page_count, pages_per_sheet);
            append_shifted(
                &mut result,
                &signature_ordering,
                signature_start,
                sig_page_count,
                true,
            );
            proof {
                let sigs = sc_signature(n, p, ns, sig as nat);
                assert forall|k: int| 0 <= k < result@.len() implies #[trigger] result@[k]@
                    == sc_upto(n, p, ns, (sig + 1) as nat)[k] by {
                    if k >= prev.len() {
                        let i = k - prev.len();
                        assert(result@[prev.len() + i]@ == signature_ordering@[i]@.map_values(
                            |v: usize| shift_page(v, signature_start as int, sig_page_count as int, true),
                        ));
                    }
                }
            }
        } else {
            proof {
                assert(sc_upto(n, p, ns, (sig + 1) as nat) =~= sc_upto(n, p, ns, sig as nat));
            }
        }
        current_page = current_page + sig_page_count;
        sig = sig + 1;
    }
    result
}


// ---------------------------------------------------------------------------
// Laws: every page is printed exactly once, signature by signature.
// ---------------------------------------------------------------------------

/// The smaller of two integers.
pub open spec fn min_of(a: int, b: int) -> int {
    if a < b {
        a
    } else {
        b
    }
}

/// Every page printed in `sides` lies in `lo..=hi`.
pub open spec fn pages_within(sides: Seq<Seq<usize>>, lo: int, hi: int) -> bool {
    forall|i: int, k: int|
        0 <= i < sides.len() && 0 <= k < sides[i].len() && #[trigger] sides[i][k] != 0 ==> lo
            <= sides[i][k] <= hi
}

/// Every page of `lo..=hi` is printed somewhere in `sides`.
pub open spec fn shows_all(sides: Seq<Seq<usize>>, lo: int, hi: int) -> bool {
    forall|y: int| lo <= y <= hi ==> #[trigger] shows_page(sides, y)
}

/// Stacking the sides of consecutive page ranges keeps every page once.
proof fn lemma_stack(a: Seq<Seq<usize>>, b: Seq<Seq<usize>>, lo: int, mid: int, hi: int)
    requires
        lo - 1 <= mid <= hi,
        pages_within(a, lo, mid),
        pages_within(b, mid + 1, hi),
        pages_distinct(a),
        pages_distinct(b),
        shows_all(a, lo, mid),
        shows_all(b, mid + 1, hi),
    ensures
        pages_within(a + b, lo, hi),
        pages_distinct(a + b),
        shows_all(a + b, lo, hi),
{
    let c = a + b;
    let l = a.len() as int;
    assert(forall|i: int| 0 <= i < l ==> #[trigger] c[i] == a[i]);
    assert(forall|i: int| l <= i < c.len() ==> #[trigger] c[i] == b[i - l]);
    assert forall|i: int, k: int|
        0 <= i < c.len() && 0 <= k < c[i].len() && #[trigger] c[i][k] != 0 implies lo <= c[i][k]
        <= hi by {
        if i < l {
            assert(c[i][k] == a[i][k]);
        } else {
            assert(c[i][k] == b[i - l][k]);
        }
    }
    assert forall|i1: int, k1: int, i2: int, k2: int|
        0 <= i1 < c.len() && 0 <= k1 < c[i1].len() && 0 <= i2 < c.len() && 0 <= k2
            < c[i2].len() && c[i1][k1] != 0 && #[trigger] c[i1][k1] == #[trigger] c[i2][k2] implies i1
        == i2 && k1 == k2 by {
        if i1 < l {
            assert(c[i1][k1] == a[i1][k1]);
        } else {
            assert(c[i1][k1] == b[i1 - l][k1]);
        }
        if i2 < l {
            assert(c[i2][k2] == a[i2][k2]);
        } else {
            assert(c[i2][k2] == b[i2 - l][k2]);
        }
    }
    assert forall|y: int| lo <= y <= hi implies #[trigger] shows_page(c, y) by {
        if y <= mid {
            assert(shows_page(a, y));
            let (i, k) = choose|i: int, k: int|
                0 <= i < a.len() && 0 <= k < a[i].len() && #[trigger] a[i][k] == y;
            assert(c[i][k] == y);
        } else {
            assert(shows_page(b, y));
            let (i, k) = choose|i: int, k: int|
                0 <= i < b.len() && 0 <= k < b[i].len() && #[trigger] b[i][k] == y;
            assert(c[i + l][k] == y);
        }
    }
}

/// The sides of a signature of `count` pages, renumbered from `start`,
/// print each page of `start..start + count` exactly once.
proof fn lemma_shifted_signature(count: nat, p: nat, start: int, bounded: bool)
    requires
        p >= 2,
        start >= 1,
        start - 1 + count <= usize::MAX,
    ensures
        pages_within(
            shift_sides(saddle_stitch_order(count, p), start, count as int, bounded),
            start,
            start + count - 1,
        ),
        pages_distinct(shift_sides(saddle_stitch_order(count, p), start, count as int, bounded)),
        shows_all(
            shift_sides(saddle_stitch_order(count, p), start, count as int, bounded),
            start,
            start + count - 1,
        ),
{
    let sides = saddle_stitch_order(count, p);
    let sh = shift_sides(sides, start, count as int, bounded);
    lemma_saddle_stitch_shape(count, p);
    lemma_saddle_stitch_each_page_once(count, p);
    assert(forall|i: int| 0 <= i < sides.len() ==> (#[trigger] sh[i]).len() == p);
    assert forall|i: int, k: int| 0 <= i < sh.len() && 0 <= k < sh[i].len() implies (
    #[trigger] sh[i][k]) == (if sides[i][k] == 0 {
        0
    } else {
        start + sides[i][k] - 1
    }) by {
        assert(sides[i][k] <= count);
    }
    assert forall|i1: int, k1: int, i2: int, k2: int|
        0 <= i1 < sh.len() && 0 <= k1 < sh[i1].len() && 0 <= i2 < sh.len() && 0 <= k2
            < sh[i2].len() && sh[i1][k1] != 0 && #[trigger] sh[i1][k1] == #[trigger] sh[i2][k2] implies i1
        == i2 && k1 == k2 by {
        assert(sides[i1][k1] == sides[i2][k2]);
    }
    assert forall|y: int| start <= y <= start + count - 1 implies #[trigger] shows_page(sh, y) by {
        let x = y - start + 1;
        assert(shows_page(sides, x));
        let (i, k) = choose|i: int, k: int|
            0 <= i < sides.len() && 0 <= k < sides[i].len() && #[trigger] sides[i][k] == x;
        assert(sh[i][k] == y);
    }
}

/// The first `k` signatures print each page of `1..=min(k * pps, n)` once.
proof fn lemma_pb_upto(n: nat, p: nat, sps: nat, k: nat)
    requires
        pb_valid(p, sps),
        n >= 1,
        k <= pb_num_signatures(n, p, sps),
        pb_fits(n, p, sps),
    ensures
        pages_within(pb_upto(n, p, sps, k), 1, min_of(pb_sig_start(p, sps, k) - 1, n as int)),
        pages_distinct(pb_upto(n, p, sps, k)),
        shows_all(pb_upto(n, p, sps, k), 1, min_of(pb_sig_start(p, sps, k) - 1, n as int)),
        k < pb_num_signatures(n, p, sps) ==> pb_sig_start(p, sps, k) - 1 < n,
        k == pb_num_signatures(n, p, sps) ==> pb_sig_start(p, sps, k) - 1 >= n,
    decreases k,
{
    lemma_pow2_grid_even_cols(p);
    lemma_pps_positive(p, sps);
    let pps = pb_pages_per_signature(p, sps);
    let nsig = pb_num_signatures(n, p, sps);
    lemma_div_ceil_cover(n, pps);
    assert(nsig * pps >= n);
    if k < nsig {
        lemma_signature_bounds(n, p, sps, k);
    }
    if k == 0 {
        assert(0 * pps == 0) by (nonlinear_arith);
        assert(pb_sig_start(p, sps, 0) == 1);
    } else {
        let j = (k - 1) as nat;
        lemma_pb_upto(n, p, sps, j);
        lemma_signature_bounds(n, p, sps, j);
        let start = pb_sig_start(p, sps, j);
        let count = pb_sig_count(n, p, sps, j);
        lemma_shifted_signature(count, p, start, false);
        lemma_stack(pb_upto(n, p, sps, j), pb_signature(n, p, sps, j), 1, start - 1, start + count - 1);
        assert(start - 1 < n);
        assert(start + count - 1 == min_of(pb_sig_start(p, sps, k) - 1, n as int));
    }
}


/// Perfect binding prints every page of the document exactly once: each
/// page of `1..=n` is in some slot, no two slots hold the same page, and no
/// slot holds a page past `n`.
pub proof fn lemma_perfect_bound_each_page_once(n: nat, p: nat, sps: nat)
    requires
        pb_valid(p, sps),
        pb_fits(n, p, sps),
        n <= usize::MAX,
    ensures
        pages_within(perfect_bound_order(n, p, sps), 1, n as int),
        pages_distinct(perfect_bound_order(n, p, sps)),
        shows_all(perfect_bound_order(n, p, sps), 1, n as int),
{
    if n >= 1 {
        lemma_pb_upto(n, p, sps, pb_num_signatures(n, p, sps));
        lemma_pps_positive(p, sps);
        lemma_div_ceil_cover(n, pb_pages_per_signature(p, sps));
        assert(min_of(pb_sig_start(p, sps, pb_num_signatures(n, p, sps)) - 1, n as int) == n);
    }
}

/// Signature `i` is a saddle stitch booklet of pages
/// `start..start + count` of the document, each printed once; every
/// signature but the last holds `pb_pages_per_signature` pages, and the
/// signatures follow one another without gap.
pub proof fn lemma_perfect_bound_signature_pages(n: nat, p: nat, sps: nat, i: nat)
    requires
        pb_valid(p, sps),
        pb_fits(n, p, sps),
        n >= 1,
        i < pb_num_signatures(n, p, sps),
    ensures
        pb_sig_start(p, sps, i) == i * pb_pages_per_signature(p, sps) + 1,
        i + 1 < pb_num_signatures(n, p, sps) ==> pb_sig_count(n, p, sps, i)
            == pb_pages_per_signature(p, sps),
        i + 1 == pb_num_signatures(n, p, sps) ==> pb_sig_start(p, sps, i) + pb_sig_count(
            n,
            p,
            sps,
            i,
        ) - 1 == n,
        pages_within(
            pb_signature(n, p, sps, i),
            pb_sig_start(p, sps, i),
            pb_sig_start(p, sps, i) + pb_sig_count(n, p, sps, i) - 1,
        ),
        pages_distinct(pb_signature(n, p, sps, i)),
        shows_all(
            pb_signature(n, p, sps, i),
            pb_sig_start(p, sps, i),
            pb_sig_start(p, sps, i) + pb_sig_count(n, p, sps, i) - 1,
        ),
{
    lemma_pow2_grid_even_cols(p);
    lemma_signature_bounds(n, p, sps, i);
    lemma_shifted_signature(pb_sig_count(n, p, sps, i), p, pb_sig_start(p, sps, i), false);
    let pps = pb_pages_per_signature(p, sps);
    lemma_pps_positive(p, sps);
    lemma_div_ceil_cover(n, pps);
    if i + 1 < pb_num_signatures(n, p, sps) {
        lemma_signature_bounds(n, p, sps, i + 1);
    } else {
        assert((i + 1) * pps >= n);
    }
}

/// A document that fits in one signature is bound exactly as a saddle
/// stitch booklet.
pub proof fn lemma_perfect_bound_single_signature(n: nat, p: nat, sps: nat)
    requires
        pb_valid(p, sps),
        pb_fits(n, p, sps),
        1 <= n <= pb_pages_per_signature(p, sps),
        n <= usize::MAX,
    ensures
        perfect_bound_order(n, p, sps) == saddle_stitch_order(n, p),
{
    lemma_pps_positive(p, sps);
    let pps = pb_pages_per_signature(p, sps);
    lemma_div_ceil_cover(n, pps);
    let nsig = pb_num_signatures(n, p, sps);
    if nsig >= 2 {
        assert(nsig * pps >= 2 * pps) by (nonlinear_arith)
            requires
                nsig >= 2,
        ;
    }
    if nsig == 0 {
        assert(nsig * pps == 0) by (nonlinear_arith)
            requires
                nsig == 0,
        ;
    }
    assert(nsig == 1);
    assert(0 * pps == 0) by (nonlinear_arith);
    assert(1 * pps == pps) by (nonlinear_arith);
    assert(pb_sig_start(p, sps, 0) == 1);
    assert(pb_sig_count(n, p, sps, 0) == n);
    let sides = saddle_stitch_order(n, p);
    lemma_saddle_stitch_shape(n, p);
    let sh = shift_sides(sides, 1, n as int, false);
    assert(pb_upto(n, p, sps, 1) =~= pb_upto(n, p, sps, 0) + pb_signature(n, p, sps, 0));
    assert(pb_upto(n, p, sps, 0) + sh =~= sh);
    assert forall|i: int| 0 <= i < sides.len() implies #[trigger] sh[i] == sides[i] by {
        assert(sh[i] =~= sides[i]);
    }
    assert(sh =~= sides);
}

/// When the requested physical sheets fill whole printing sheets, a
/// signature holds four pages per physical sheet, whatever the n-up:
/// 2 sheets per signature at 2-up and at 4-up give the same page groups.
pub proof fn lemma_pages_per_signature_physical(p: nat, sps: nat)
    requires
        pb_valid(p, sps),
        sps % (p / 2) == 0,
    ensures
        pb_pages_per_signature(p, sps) == 4 * sps,
{
    lemma_grid_rows_spec(p);
    assert(pb_cut_sheets(p) == p / 2);
    let h = p / 2;
    assert(p == 2 * h) by {
        lemma_pow2_grid_even_cols(p);
        assert(grid_rows(p) * grid_cols(p) == p);
        let hc = grid_cols(p) / 2;
        assert(grid_rows(p) * grid_cols(p) == 2 * (grid_rows(p) * hc)) by (nonlinear_arith)
            requires
                grid_cols(p) == 2 * hc,
        ;
    }
    vstd::arithmetic::div_mod::lemma_fundamental_div_mod(sps as int, h as int);
    let q = sps / h;
    assert(pb_pages_per_signature(p, sps) == p * 2 * q);
    assert(p * 2 * q == 4 * (h * q)) by (nonlinear_arith)
        requires
            p == 2 * h,
    ;
}


/// How a signature count shares out the pages: every signature gets the
/// even share `n / ns` or one page more, exactly `n % ns` of them get one
/// more, those form one block around the centre signature, and the sizes
/// add up to `n` (the page after the last signature is `n + 1`).
pub proof fn lemma_signature_sizes(n: nat, ns: nat)
    requires
        ns >= 1,
    ensures
        forall|j: int| 0 <= j < ns ==> n / ns <= #[trigger] sig_size(n, ns, j) <= n / ns + 1,
        bonus_count(ns, (n % ns) as int, ns) == n % ns,
        forall|j1: int, j2: int, j3: int|
            0 <= j1 <= j2 <= j3 < ns && #[trigger] sig_bonus(ns, j1, (n % ns) as int)
                && #[trigger] sig_bonus(ns, j3, (n % ns) as int) ==> #[trigger] sig_bonus(
                ns,
                j2,
                (n % ns) as int,
            ),
        sig_start(n, ns, ns) == n + 1,
{
    let rem = (n % ns) as int;
    lemma_bonus_count_total(ns, rem);
    lemma_sig_start(n, ns, ns);
    vstd::arithmetic::div_mod::lemma_fundamental_div_mod(n as int, ns as int);
    assert(ns * (n / ns) == (n / ns) * ns) by (nonlinear_arith);
}

/// The first `k` signatures print each page of `1..sig_start(k)` once.
proof fn lemma_sc_upto(n: nat, p: nat, ns: nat, k: nat)
    requires
        sc_valid(n, p, ns),
        sc_fits(n, p, ns),
        k <= ns,
    ensures
        pages_within(sc_upto(n, p, ns, k), 1, sig_start(n, ns, k) - 1),
        pages_distinct(sc_upto(n, p, ns, k)),
        shows_all(sc_upto(n, p, ns, k), 1, sig_start(n, ns, k) - 1),
    decreases k,
{
    lemma_pow2_grid_even_cols(p);
    if k > 0 {
        let j = (k - 1) as nat;
        lemma_sc_upto(n, p, ns, j);
        lemma_sig_range(n, ns, j);
        let start = sig_start(n, ns, j);
        let size = sig_size(n, ns, j as int);
        if size == 0 {
            assert(sc_upto(n, p, ns, k) =~= sc_upto(n, p, ns, j));
        } else {
            lemma_shifted_signature(size, p, start, true);
            lemma_stack(sc_upto(n, p, ns, j), sc_signature(n, p, ns, j), 1, start - 1, start + size - 1);
        }
    } else {
        lemma_sig_start(n, ns, 0);
    }
}

/// Perfect binding by signature count prints every page of the document
/// exactly once, and no page past `n`.
pub proof fn lemma_signature_count_each_page_once(n: nat, p: nat, ns: nat)
    requires
        p >= 2,
        is_pow2(p),
        ns >= 1,
        sc_fits(n, p, ns),
        n <= usize::MAX,
    ensures
        pages_within(signature_count_order(n, p, ns), 1, n as int),
        pages_distinct(signature_count_order(n, p, ns)),
        shows_all(signature_count_order(n, p, ns), 1, n as int),
{
    if n >= 1 {
        lemma_sc_upto(n, p, ns, ns);
        lemma_signature_sizes(n, ns);
    }
}

/// Sides taken by the first `j` signatures when each signature is its own
/// saddle stitch booklet: the sum of `ss_total_sides` over their sizes.
pub open spec fn sc_sides_before(n: nat, p: nat, ns: nat, j: nat) -> nat
    decreases j,
{
    if j == 0 {
        0
    } else {
        sc_sides_before(n, p, ns, (j - 1) as nat) + ss_total_sides(sig_size(n, ns, j - 1), p)
    }
}

/// The sides of the first `k` signatures are the saddle stitch booklets of
/// their own sizes, one after another, renumbered from each `sig_start`.
proof fn lemma_sc_blocks_upto(n: nat, p: nat, ns: nat, k: nat)
    requires
        sc_valid(n, p, ns),
        n <= usize::MAX,
        k <= ns,
    ensures
        sc_upto(n, p, ns, k).len() == sc_sides_before(n, p, ns, k),
        forall|j: nat, i: int|
            #![trigger saddle_stitch_order(sig_size(n, ns, j as int), p)[i], sc_sides_before(n, p, ns, j)]
            j < k && 0 <= i < ss_total_sides(sig_size(n, ns, j as int), p) ==> sc_upto(n, p, ns, k)[sc_sides_before(
                n,
                p,
                ns,
                j,
            ) + i].len() == saddle_stitch_order(sig_size(n, ns, j as int), p)[i].len() == p,
        forall|j: nat, i: int, c: int|
            #![trigger saddle_stitch_order(sig_size(n, ns, j as int), p)[i][c], sc_sides_before(n, p, ns, j)]
            j < k && 0 <= i < ss_total_sides(sig_size(n, ns, j as int), p) && 0 <= c < p ==> {
                &&& sc_upto(n, p, ns, k)[sc_sides_before(n, p, ns, j) + i][c] as int == {
                    let v = saddle_stitch_order(sig_size(n, ns, j as int), p)[i][c];
                    if v == 0 {
                        0
                    } else {
                        sig_start(n, ns, j) + v - 1
                    }
                }
            },
    decreases k,
{
    if k > 0 {
        let t = (k - 1) as nat;
        lemma_sc_blocks_upto(n, p, ns, t);
        lemma_sig_range(n, ns, t);
        let size = sig_size(n, ns, t as int);
        let prev = sc_upto(n, p, ns, t);
        let cur = sc_upto(n, p, ns, k);
        let sides = saddle_stitch_order(size, p);
        lemma_saddle_stitch_side_count(size, p);
        lemma_saddle_stitch_shape(size, p);
        lemma_side_capacity(p);
        assert(cur == prev + sc_signature(n, p, ns, t));
        if size == 0 {
            assert(ss_total_sides(0, p) == 0);
            assert(sc_signature(n, p, ns, t) =~= Seq::<Seq<usize>>::empty());
            assert(cur =~= prev);
        }
        assert(cur.len() == sc_sides_before(n, p, ns, k));
        assert forall|j: nat, i: int|
            #![trigger saddle_stitch_order(sig_size(n, ns, j as int), p)[i], sc_sides_before(n, p, ns, j)]
            j < k && 0 <= i < ss_total_sides(sig_size(n, ns, j as int), p) implies cur[sc_sides_before(
            n,
            p,
            ns,
            j,
        ) + i].len() == saddle_stitch_order(sig_size(n, ns, j as int), p)[i].len() == p by {
            lemma_sc_side(n, p, ns, k, j, i);
            lemma_sig_range(n, ns, j);
            lemma_saddle_stitch_side_count(sig_size(n, ns, j as int), p);
            lemma_saddle_stitch_shape(sig_size(n, ns, j as int), p);
        }
        assert forall|j: nat, i: int, c: int|
            #![trigger saddle_stitch_order(sig_size(n, ns, j as int), p)[i][c], sc_sides_before(n, p, ns, j)]
            j < k && 0 <= i < ss_total_sides(sig_size(n, ns, j as int), p) && 0 <= c < p implies cur[sc_sides_before(
            n,
            p,
            ns,
            j,
        ) + i][c] as int == {
            let v = saddle_stitch_order(sig_size(n, ns, j as int), p)[i][c];
            if v == 0 {
                0
            } else {
                sig_start(n, ns, j) + v - 1
            }
        } by {
            lemma_sc_side(n, p, ns, k, j, i);
            if j == t {
                let v = sides[i][c];
                assert(v <= size);
            }
        }
    }
}

/// Side `i` of signature `j < k` among the first `k` signatures: where it
/// stands, and what it is.
proof fn lemma_sc_side(n: nat, p: nat, ns: nat, k: nat, j: nat, i: int)
    requires
        sc_valid(n, p, ns),
        n <= usize::MAX,
        0 < k <= ns,
        j < k,
        0 <= i < ss_total_sides(sig_size(n, ns, j as int), p),
        sc_upto(n, p, ns, (k - 1) as nat).len() == sc_sides_before(n, p, ns, (k - 1) as nat),
    ensures
        j < k - 1 ==> sc_upto(n, p, ns, k)[sc_sides_before(n, p, ns, j) + i] == sc_upto(
            n,
            p,
            ns,
            (k - 1) as nat,
        )[sc_sides_before(n, p, ns, j) + i],
        j == k - 1 ==> sc_upto(n, p, ns, k)[sc_sides_before(n, p, ns, j) + i] == saddle_stitch_order(
            sig_size(n, ns, j as int),
            p,
        )[i].map_values(|w: usize| shift_page(w, sig_start(n, ns, j), sig_size(n, ns, j as int) as int, true)),
        sc_upto(n, p, ns, k)[sc_sides_before(n, p, ns, j) + i].len() == p,
{
    let t = (k - 1) as nat;
    let size = sig_size(n, ns, j as int);
    let sides = saddle_stitch_order(size, p);
    let prev = sc_upto(n, p, ns, t);
    let cur = sc_upto(n, p, ns, k);
    lemma_sig_range(n, ns, j);
    lemma_side_capacity(p);
    lemma_sc_widths(n, p, ns, k);
    lemma_saddle_stitch_side_count(size, p);
    lemma_saddle_stitch_shape(size, p);
    assert(cur == prev + sc_signature(n, p, ns, t));
    lemma_sc_sides_before_monotone(n, p, ns, j + 1, k);
    if j < t {
        lemma_sc_sides_before_monotone(n, p, ns, j + 1, t);
    } else {
        assert(size > 0);
        assert(sides[i].len() == p);
    }
}

/// Every side of the first `k` signatures has `p` slots.
proof fn lemma_sc_widths(n: nat, p: nat, ns: nat, k: nat)
    requires
        sc_valid(n, p, ns),
    ensures
        forall|x: int| 0 <= x < sc_upto(n, p, ns, k).len() ==> (#[trigger] sc_upto(n, p, ns, k)[x]).len() == p,
    decreases k,
{
    if k > 0 {
        let t = (k - 1) as nat;
        lemma_sc_widths(n, p, ns, t);
        let prev = sc_upto(n, p, ns, t);
        let sig = sc_signature(n, p, ns, t);
        let size = sig_size(n, ns, t as int);
        lemma_saddle_stitch_shape(size, p);
        assert(sc_upto(n, p, ns, k) == prev + sig);
        assert forall|x: int| 0 <= x < sc_upto(n, p, ns, k).len() implies (#[trigger] sc_upto(
            n,
            p,
            ns,
            k,
        )[x]).len() == p by {
            if x >= prev.len() {
                let y = x - prev.len();
                assert(sc_upto(n, p, ns, k)[x] == sig[y]);
                assert(saddle_stitch_order(size, p)[y].len() == p);
            } else {
                assert(sc_upto(n, p, ns, k)[x] == prev[x]);
            }
        }
    }
}

/// `sc_sides_before` grows with the signature count.
proof fn lemma_sc_sides_before_monotone(n: nat, p: nat, ns: nat, a: nat, b: nat)
    requires
        a <= b,
    ensures
        sc_sides_before(n, p, ns, a) <= sc_sides_before(n, p, ns, b),
    decreases b,
{
    if a < b {
        lemma_sc_sides_before_monotone(n, p, ns, a, (b - 1) as nat);
    }
}

/// Perfect binding by signature count binds each signature as a saddle
/// stitch booklet of exactly its own pages: signature `j` takes
/// `ss_total_sides(sig_size(n, ns, j), p)` sides, starting after the sides
/// of the signatures before it, and its sides are those of the saddle stitch
/// ordering of `sig_size(n, ns, j)` pages with each page `v` printed as page
/// `sig_start(n, ns, j) + v - 1` of the document (blanks stay blank).
pub proof fn lemma_signature_count_blocks(n: nat, p: nat, ns: nat)
    requires
        sc_valid(n, p, ns),
        sc_fits(n, p, ns),
    ensures
        signature_count_order(n, p, ns).len() == sc_sides_before(n, p, ns, ns),
        forall|j: nat, i: int|
            #![trigger saddle_stitch_order(sig_size(n, ns, j as int), p)[i], sc_sides_before(n, p, ns, j)]
            j < ns && 0 <= i < ss_total_sides(sig_size(n, ns, j as int), p) ==> signature_count_order(n, p, ns)[sc_sides_before(
                n,
                p,
                ns,
                j,
            ) + i].len() == saddle_stitch_order(sig_size(n, ns, j as int), p)[i].len() == p,
        forall|j: nat, i: int, c: int|
            #![trigger saddle_stitch_order(sig_size(n, ns, j as int), p)[i][c], sc_sides_before(n, p, ns, j)]
            j < ns && 0 <= i < ss_total_sides(sig_size(n, ns, j as int), p) && 0 <= c < p ==> {
                &&& signature_count_order(n, p, ns)[sc_sides_before(n, p, ns, j) + i][c] as int == {
                    let v = saddle_stitch_order(sig_size(n, ns, j as int), p)[i][c];
                    if v == 0 {
                        0
                    } else {
                        sig_start(n, ns, j) + v - 1
                    }
                }
            },
{
    lemma_sc_blocks_upto(n, p, ns, ns);
    assert(signature_count_order(n, p, ns) == sc_upto(n, p, ns, ns));
}

/// Sides taken by the first `k` signatures of perfect binding when each is
/// its own saddle stitch booklet: the sum of `ss_total_sides` over their
/// page counts.
pub open spec fn pb_sides_before(n: nat, p: nat, sps: nat, k: nat) -> nat
    decreases k,
{
    if k == 0 {
        0
    } else {
        pb_sides_before(n, p, sps, (k - 1) as nat) + ss_total_sides(
            pb_sig_count(n, p, sps, (k - 1) as nat),
            p,
        )
    }
}

/// `pb_sides_before` grows with the signature count.
proof fn lemma_pb_sides_before_monotone(n: nat, p: nat, sps: nat, a: nat, b: nat)
    requires
        a <= b,
    ensures
        pb_sides_before(n, p, sps, a) <= pb_sides_before(n, p, sps, b),
    decreases b,
{
    if a < b {
        lemma_pb_sides_before_monotone(n, p, sps, a, (b - 1) as nat);
    }
}

/// Every side of the first `k` signatures has `p` slots, and there are
/// `pb_sides_before(k)` of them.
proof fn lemma_pb_widths(n: nat, p: nat, sps: nat, k: nat)
    requires
        pb_valid(p, sps),
        pb_fits(n, p, sps),
        n >= 1,
        k <= pb_num_signatures(n, p, sps),
    ensures
        pb_upto(n, p, sps, k).len() == pb_sides_before(n, p, sps, k),
        forall|x: int| 0 <= x < pb_upto(n, p, sps, k).len() ==> (#[trigger] pb_upto(n, p, sps, k)[x]).len() == p,
    decreases k,
{
    if k > 0 {
        let t = (k - 1) as nat;
        lemma_pb_widths(n, p, sps, t);
        lemma_signature_bounds(n, p, sps, t);
        let prev = pb_upto(n, p, sps, t);
        let sig = pb_signature(n, p, sps, t);
        let count = pb_sig_count(n, p, sps, t);
        lemma_saddle_stitch_shape(count, p);
        lemma_saddle_stitch_side_count(count, p);
        assert(pb_upto(n, p, sps, k) == prev + sig);
        assert forall|x: int| 0 <= x < pb_upto(n, p, sps, k).len() implies (#[trigger] pb_upto(
            n,
            p,
            sps,
            k,
        )[x]).len() == p by {
            if x >= prev.len() {
                let y = x - prev.len();
                assert(pb_upto(n, p, sps, k)[x] == sig[y]);
                assert(saddle_stitch_order(count, p)[y].len() == p);
            } else {
                assert(pb_upto(n, p, sps, k)[x] == prev[x]);
            }
        }
    }
}

/// Side `r` of signature `i < k` among the first `k` signatures.
proof fn lemma_pb_side(n: nat, p: nat, sps: nat, k: nat, i: nat, r: int)
    requires
        pb_valid(p, sps),
        pb_fits(n, p, sps),
        n >= 1,
        0 < k <= pb_num_signatures(n, p, sps),
        i < k,
        0 <= r < ss_total_sides(pb_sig_count(n, p, sps, i), p),
    ensures
        i < k - 1 ==> pb_upto(n, p, sps, k)[pb_sides_before(n, p, sps, i) + r] == pb_upto(
            n,
            p,
            sps,
            (k - 1) as nat,
        )[pb_sides_before(n, p, sps, i) + r],
        i == k - 1 ==> pb_upto(n, p, sps, k)[pb_sides_before(n, p, sps, i) + r]
            == saddle_stitch_order(pb_sig_count(n, p, sps, i), p)[r].map_values(
            |w: usize| shift_page(w, pb_sig_start(p, sps, i), pb_sig_count(n, p, sps, i) as int, false),
        ),
        pb_upto(n, p, sps, k)[pb_sides_before(n, p, sps, i) + r].len() == p,
{
    let t = (k - 1) as nat;
    lemma_pb_widths(n, p, sps, k);
    lemma_pb_widths(n, p, sps, t);
    lemma_signature_bounds(n, p, sps, i);
    lemma_pb_sides_before_monotone(n, p, sps, i + 1, k);
    assert(pb_upto(n, p, sps, k) == pb_upto(n, p, sps, t) + pb_signature(n, p, sps, t));
    if i < t {
        lemma_pb_sides_before_monotone(n, p, sps, i + 1, t);
    }
}

/// Perfect binding binds each signature as a saddle stitch booklet of
/// exactly its own pages: signature `i` (of `pb_num_signatures`) takes
/// `ss_total_sides(pb_sig_count(n, p, sps, i), p)` sides, starting after the
/// sides of the signatures before it, and its sides are those of the saddle
/// stitch ordering of its page count with each page `v` printed as page
/// `i * pb_pages_per_signature(p, sps) + v` of the document (blanks stay
/// blank); signature `i` holds a full `pb_pages_per_signature` pages but
/// for the last, which holds the rest.
pub proof fn lemma_perfect_bound_blocks(n: nat, p: nat, sps: nat)
    requires
        pb_valid(p, sps),
        pb_fits(n, p, sps),
        n >= 1,
    ensures
        perfect_bound_order(n, p, sps).len() == pb_sides_before(n, p, sps, pb_num_signatures(n, p, sps)),
        forall|i: nat|
            i < pb_num_signatures(n, p, sps) ==> #[trigger] pb_sig_count(n, p, sps, i) == if i + 1
                < pb_num_signatures(n, p, sps) {
                pb_pages_per_signature(p, sps) as int
            } else {
                n - i * pb_pages_per_signature(p, sps)
            },
        forall|i: nat, r: int|
            #![trigger saddle_stitch_order(pb_sig_count(n, p, sps, i), p)[r], pb_sides_before(n, p, sps, i)]
            i < pb_num_signatures(n, p, sps) && 0 <= r < ss_total_sides(pb_sig_count(n, p, sps, i), p)
                ==> perfect_bound_order(n, p, sps)[pb_sides_before(n, p, sps, i) + r].len()
                == saddle_stitch_order(pb_sig_count(n, p, sps, i), p)[r].len() == p,
        forall|i: nat, r: int, c: int|
            #![trigger saddle_stitch_order(pb_sig_count(n, p, sps, i), p)[r][c], pb_sides_before(n, p, sps, i)]
            i < pb_num_signatures(n, p, sps) && 0 <= r < ss_total_sides(pb_sig_count(n, p, sps, i), p)
                && 0 <= c < p ==> perfect_bound_order(n, p, sps)[pb_sides_before(n, p, sps, i) + r][c] as int
                == {
                let v = saddle_stitch_order(pb_sig_count(n, p, sps, i), p)[r][c];
                if v == 0 {
                    0
                } else {
                    i * pb_pages_per_signature(p, sps) + v
                }
            },
{
    let nsig = pb_num_signatures(n, p, sps);
    let order = perfect_bound_order(n, p, sps);
    assert(order == pb_upto(n, p, sps, nsig));
    lemma_pb_widths(n, p, sps, nsig);
    assert forall|i: nat|
        i < nsig implies #[trigger] pb_sig_count(n, p, sps, i) == if i + 1 < nsig {
            pb_pages_per_signature(p, sps) as int
        } else {
            n - i * pb_pages_per_signature(p, sps)
        } by {
        lemma_perfect_bound_signature_pages(n, p, sps, i);
    }
    assert forall|i: nat, r: int|
        #![trigger saddle_stitch_order(pb_sig_count(n, p, sps, i), p)[r], pb_sides_before(n, p, sps, i)]
        i < nsig && 0 <= r < ss_total_sides(pb_sig_count(n, p, sps, i), p) implies order[pb_sides_before(
        n,
        p,
        sps,
        i,
    ) + r].len() == saddle_stitch_order(pb_sig_count(n, p, sps, i), p)[r].len() == p by {
        lemma_pb_block_side(n, p, sps, nsig, i, r);
        lemma_signature_bounds(n, p, sps, i);
        lemma_saddle_stitch_shape(pb_sig_count(n, p, sps, i), p);
        lemma_saddle_stitch_side_count(pb_sig_count(n, p, sps, i), p);
    }
    assert forall|i: nat, r: int, c: int|
        #![trigger saddle_stitch_order(pb_sig_count(n, p, sps, i), p)[r][c], pb_sides_before(n, p, sps, i)]
        i < nsig && 0 <= r < ss_total_sides(pb_sig_count(n, p, sps, i), p) && 0 <= c < p implies order[pb_sides_before(
        n,
        p,
        sps,
        i,
    ) + r][c] as int == {
        let v = saddle_stitch_order(pb_sig_count(n, p, sps, i), p)[r][c];
        if v == 0 {
            0
        } else {
            i * pb_pages_per_signature(p, sps) + v
        }
    } by {
        lemma_pb_block_side(n, p, sps, nsig, i, r);
        lemma_signature_bounds(n, p, sps, i);
        lemma_saddle_stitch_shape(pb_sig_count(n, p, sps, i), p);
        lemma_saddle_stitch_side_count(pb_sig_count(n, p, sps, i), p);
        let v = saddle_stitch_order(pb_sig_count(n, p, sps, i), p)[r][c];
        assert(v <= pb_sig_count(n, p, sps, i));
    }
}

/// Side `r` of signature `i` among all `k` first signatures is signature
/// `i`'s own side `r`, renumbered.
proof fn lemma_pb_block_side(n: nat, p: nat, sps: nat, k: nat, i: nat, r: int)
    requires
        pb_valid(p, sps),
        pb_fits(n, p, sps),
        n >= 1,
        k <= pb_num_signatures(n, p, sps),
        i < k,
        0 <= r < ss_total_sides(pb_sig_count(n, p, sps, i), p),
    ensures
        pb_upto(n, p, sps, k)[pb_sides_before(n, p, sps, i) + r] == saddle_stitch_order(
            pb_sig_count(n, p, sps, i),
            p,
        )[r].map_values(
            |w: usize| shift_page(w, pb_sig_start(p, sps, i), pb_sig_count(n, p, sps, i) as int, false),
        ),
    decreases k,
{
    lemma_pb_side(n, p, sps, k, i, r);
    if i < k - 1 {
        lemma_pb_block_side(n, p, sps, (k - 1) as nat, i, r);
    }
}

} // verus!
