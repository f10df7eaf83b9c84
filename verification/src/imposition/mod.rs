//! Page ordering and booklet imposition algorithms.

pub mod grid;
pub mod perfect_bound;
pub mod saddle_stitch;

use vstd::prelude::*;

use crate::config::{is_pow2, is_power_of_two, BindingType};
use crate::error::BookletError;
use crate::imposition::grid::calculate_saddle_stitch_grid;
use crate::imposition::perfect_bound::{
    calculate_perfect_bound_order,
    calculate_perfect_bound_order_with_signature_count,
    lemma_perfect_bound_each_page_once,
    lemma_signature_count_each_page_once,
    pages_within,
    pb_cut_sheets,
    pb_fits,
    pb_num_signatures,
    pb_pages_per_signature,
    perfect_bound_order,
    sc_fits,
    shows_all,
    signature_count_order,
};
use crate::imposition::saddle_stitch::{
    calculate_saddle_stitch_order,
    div_ceil,
    lemma_div_ceil_cover,
    lemma_saddle_stitch_each_page_once,
    lemma_saddle_stitch_shape,
    pages_distinct,
    saddle_stitch_order,
    lemma_side_capacity,
    ss_fits,
    ss_per_sheet,
    ss_total_sides,
};

verus! {

/// The ordering for a binding type.
pub open spec fn page_order(n: nat, p: nat, binding_type: BindingType, sps: nat) -> Seq<
    Seq<usize>,
> {
    match binding_type {
        BindingType::SaddleStitch => saddle_stitch_order(n, p),
        BindingType::PerfectBound => perfect_bound_order(n, p, sps),
    }
}

/// The inputs of `calculate_page_order` whose numbers fit in a `usize`.
pub open spec fn page_order_fits(n: nat, p: nat, binding_type: BindingType, sps: nat) -> bool {
    match binding_type {
        BindingType::SaddleStitch => ss_fits(n, p),
        BindingType::PerfectBound => pb_fits(n, p, sps),
    }
}

/// Calculate the page ordering for an n-up booklet.
///
/// Returns one vector per side of a sheet, holding the page numbers placed
/// on that side (row by row, left to right); pages are numbered from 1 and
/// 0 is a blank. `sheets_per_signature` is used by perfect binding only.
pub fn calculate_page_order(
    num_pages: usize,
    pages_per_sheet: usize,
    binding_type: BindingType,
    sheets_per_signature: usize,
) -> (res: Vec<Vec<usize>>)
    requires
        page_order_fits(
            num_pages as nat,
            pages_per_sheet as nat,
            binding_type,
            sheets_per_signature as nat,
        ),
    ensures
        res@.len() == page_order(
            num_pages as nat,
            pages_per_sheet as nat,
            binding_type,
            sheets_per_signature as nat,
        ).len(),
        forall|i: int|
            0 <= i < res@.len() ==> #[trigger] res@[i]@ == page_order(
                num_pages as nat,
                pages_per_sheet as nat,
                binding_type,
                sheets_per_signature as nat,
            )[i],
{
    match binding_type {
        BindingType::SaddleStitch => calculate_saddle_stitch_order(num_pages, pages_per_sheet),
        BindingType::PerfectBound => calculate_perfect_bound_order(
            num_pages,
            pages_per_sheet,
            sheets_per_signature,
        ),
    }
}

/// Calculate the page ordering for a perfect bound booklet with a given
/// number of signatures, the pages shared out as evenly as possible.
pub fn calculate_page_order_with_signatures(
    num_pages: usize,
    pages_per_sheet: usize,
    num_signatures: usize,
) -> (res: Vec<Vec<usize>>)
    requires
        sc_fits(num_pages as nat, pages_per_sheet as nat, num_signatures as nat),
    ensures
        res@.len() == signature_count_order(
            num_pages as nat,
            pages_per_sheet as nat,
            num_signatures as nat,
        ).len(),
        forall|i: int|
            0 <= i < res@.len() ==> #[trigger] res@[i]@ == signature_count_order(
                num_pages as nat,
                pages_per_sheet as nat,
                num_signatures as nat,
            )[i],
{
    calculate_perfect_bound_order_with_signature_count(num_pages, pages_per_sheet, num_signatures)
}

/// The sheets a booklet is printed on: for perfect binding with a signature
/// count, by that count; otherwise by binding type (a signature count is
/// ignored for saddle stitch).
pub open spec fn booklet_order(
    n: nat,
    p: nat,
    binding_type: BindingType,
    sps: nat,
    num_signatures: Option<usize>,
) -> Seq<Seq<usize>> {
    match (binding_type, num_signatures) {
        (BindingType::PerfectBound, Some(ns)) => signature_count_order(n, p, ns as nat),
        _ => page_order(n, p, binding_type, sps),
    }
}

/// The inputs of `plan_booklet` whose numbers fit in a `usize`.
pub open spec fn booklet_fits(
    n: nat,
    p: nat,
    binding_type: BindingType,
    sps: nat,
    num_signatures: Option<usize>,
) -> bool {
    match (binding_type, num_signatures) {
        (BindingType::PerfectBound, Some(ns)) => sc_fits(n, p, ns as nat),
        _ => page_order_fits(n, p, binding_type, sps),
    }
}

/// Why a document of `n` pages at `p` pages per side cannot be planned, if it
/// cannot: it has no pages, or a side holds fewer than two pages (no page
/// pair fits on it).
pub open spec fn layout_refusal(n: nat, p: nat) -> Option<Seq<char>> {
    if n == 0 {
        Some("PDF has no pages"@)
    } else if p < 2 {
        Some("pages per sheet must be at least 2"@)
    } else {
        None
    }
}

/// The page plan of a booklet for a document of `num_pages` pages: a
/// document without pages, or fewer than two pages per side, is refused as
/// an invalid configuration (`layout_refusal`); otherwise perfect binding
/// with a signature count is ordered by that count, and everything else by
/// the binding type.
pub fn plan_booklet(
    num_pages: usize,
    pages_per_sheet: usize,
    binding_type: BindingType,
    sheets_per_signature: usize,
    num_signatures: Option<usize>,
) -> (res: Result<Vec<Vec<usize>>, BookletError>)
    requires
        booklet_fits(
            num_pages as nat,
            pages_per_sheet as nat,
            binding_type,
            sheets_per_signature as nat,
            num_signatures,
        ),
    ensures
        layout_refusal(num_pages as nat, pages_per_sheet as nat) is Some <==> res is Err,
        res matches Err(e) ==> e matches BookletError::InvalidConfig(msg) && layout_refusal(
            num_pages as nat,
            pages_per_sheet as nat,
        ) == Some(msg@),
        res matches Ok(sides) ==> {
            &&& sides@.len() == booklet_order(
                num_pages as nat,
                pages_per_sheet as nat,
                binding_type,
                sheets_per_signature as nat,
                num_signatures,
            ).len()
            &&& forall|i: int|
                0 <= i < sides@.len() ==> #[trigger] sides@[i]@ == booklet_order(
                    num_pages as nat,
                    pages_per_sheet as nat,
                    binding_type,
                    sheets_per_signature as nat,
                    num_signatures,
                )[i]
        },
{
    if num_pages == 0 {
        return Err(BookletError::InvalidConfig("PDF has no pages".to_owned()));
    }
    if pages_per_sheet < 2 {
        return Err(BookletError::InvalidConfig("pages per sheet must be at least 2".to_owned()));
    }
    match (binding_type, num_signatures) {
        (BindingType::PerfectBound, Some(num_sigs)) => Ok(
            calculate_page_order_with_signatures(num_pages, pages_per_sheet, num_sigs),
        ),
        _ => Ok(
            calculate_page_order(
                num_pages,
                pages_per_sheet,
                binding_type,
                sheets_per_signature,
            ),
        ),
    }
}

/// Why a document of `n` pages cannot be planned, if it cannot: a
/// `layout_refusal`, or page numbers and slot counts beyond a `usize`.
pub open spec fn page_count_refusal(
    n: nat,
    p: nat,
    binding_type: BindingType,
    sps: nat,
    num_signatures: Option<usize>,
) -> Option<Seq<char>> {
    if layout_refusal(n, p) is Some {
        layout_refusal(n, p)
    } else if !booklet_fits(n, p, binding_type, sps, num_signatures) {
        Some("too many pages for this layout"@)
    } else {
        None
    }
}

/// The page plan of a booklet for a document of `num_pages` pages, for any
/// parameters: what `plan_booklet` refuses is refused here too, and so are
/// page counts whose slots would not fit in a `usize`
/// (`page_count_refusal`); otherwise the sides are `booklet_order`.
pub fn plan_for_page_count(
    num_pages: usize,
    pages_per_sheet: usize,
    binding_type: BindingType,
    sheets_per_signature: usize,
    num_signatures: Option<usize>,
) -> (res: Result<Vec<Vec<usize>>, BookletError>)
    ensures
        page_count_refusal(
            num_pages as nat,
            pages_per_sheet as nat,
            binding_type,
            sheets_per_signature as nat,
            num_signatures,
        ) is Some <==> res is Err,
        res matches Err(e) ==> e matches BookletError::InvalidConfig(msg) && page_count_refusal(
            num_pages as nat,
            pages_per_sheet as nat,
            binding_type,
            sheets_per_signature as nat,
            num_signatures,
        ) == Some(msg@),
        res matches Ok(sides) ==> {
            &&& sides@.len() == booklet_order(
                num_pages as nat,
                pages_per_sheet as nat,
                binding_type,
                sheets_per_signature as nat,
                num_signatures,
            ).len()
            &&& forall|i: int|
                0 <= i < sides@.len() ==> #[trigger] sides@[i]@ == booklet_order(
                    num_pages as nat,
                    pages_per_sheet as nat,
                    binding_type,
                    sheets_per_signature as nat,
                    num_signatures,
                )[i]
        },
{
    if num_pages == 0 {
        return Err(BookletError::InvalidConfig("PDF has no pages".to_owned()));
    }
    if pages_per_sheet < 2 {
        return Err(BookletError::InvalidConfig("pages per sheet must be at least 2".to_owned()));
    }
    if !plan_fits(num_pages, pages_per_sheet, binding_type, sheets_per_signature, num_signatures) {
        return Err(BookletError::InvalidConfig("too many pages for this layout".to_owned()));
    }
    plan_booklet(num_pages, pages_per_sheet, binding_type, sheets_per_signature, num_signatures)
}

/// The layouts the booklet is made for: at least two pages per side; for
/// perfect binding a power of two, with at least one sheet per signature,
/// or at least one signature when a count is given.
pub open spec fn booklet_layout_valid(
    p: nat,
    binding_type: BindingType,
    sps: nat,
    num_signatures: Option<usize>,
) -> bool {
    &&& p >= 2
    &&& binding_type == BindingType::PerfectBound ==> {
        &&& is_pow2(p)
        &&& match num_signatures {
            Some(ns) => ns >= 1,
            None => sps >= 1,
        }
    }
}

/// The booklet prints every page of the document exactly once: each page
/// `1..=n` is in some slot, no two slots hold the same page, and every other
/// slot is blank.
pub proof fn lemma_booklet_each_page_once(
    n: nat,
    p: nat,
    binding_type: BindingType,
    sps: nat,
    num_signatures: Option<usize>,
)
    requires
        booklet_layout_valid(p, binding_type, sps, num_signatures),
        booklet_fits(n, p, binding_type, sps, num_signatures),
        n <= usize::MAX,
    ensures
        pages_within(booklet_order(n, p, binding_type, sps, num_signatures), 1, n as int),
        pages_distinct(booklet_order(n, p, binding_type, sps, num_signatures)),
        shows_all(booklet_order(n, p, binding_type, sps, num_signatures), 1, n as int),
{
    match (binding_type, num_signatures) {
        (BindingType::PerfectBound, Some(ns)) => {
            lemma_signature_count_each_page_once(n, p, ns as nat);
        },
        _ => {
            match binding_type {
                BindingType::SaddleStitch => {
                    lemma_saddle_stitch_each_page_once(n, p);
                    lemma_saddle_stitch_shape(n, p);
                    let o = saddle_stitch_order(n, p);
                    assert forall|i: int, k: int|
                        0 <= i < o.len() && 0 <= k < o[i].len() && #[trigger] o[i][k] != 0 implies 1
                        <= o[i][k] <= n by {
                        assert(o[i].len() == p);
                    }
                },
                BindingType::PerfectBound => {
                    lemma_perfect_bound_each_page_once(n, p, sps);
                },
            }
        },
    }
}

/// `a / b` rounded up (`b > 0`).
fn ceil_div(a: usize, b: usize) -> (r: usize)
    requires
        b > 0,
    ensures
        r == div_ceil(a as nat, b as nat),
{
    if a % b == 0 {
        a / b
    } else {
        proof {
            if b == 1 {
                assert(a % 1 == 0);
            }
            vstd::arithmetic::div_mod::lemma_div_is_ordered_by_denominator(a as int, 1, b as int);
            vstd::arithmetic::div_mod::lemma_div_is_ordered_by_denominator(a as int, 2, b as int);
        }
        a / b + 1
    }
}

/// Whether the saddle stitch slot count of `num_pages` pages fits in a
/// `usize` (the domain of `calculate_saddle_stitch_order`).
pub fn saddle_stitch_fits(num_pages: usize, pages_per_sheet: usize) -> (r: bool)
    ensures
        r == ss_fits(num_pages as nat, pages_per_sheet as nat),
{
    if pages_per_sheet < 2 {
        return true;
    }
    let ghost p = pages_per_sheet as nat;
    let (rows, cols) = calculate_saddle_stitch_grid(pages_per_sheet);
    let w = cols / 2 * 2;
    proof {
        lemma_side_capacity(p);
        assert(ss_per_sheet(p) == w * rows);
    }
    let side_pages = w * rows;
    let min_sides = ceil_div(num_pages, side_pages);
    let total_sides = if min_sides % 2 == 0 {
        min_sides
    } else {
        match min_sides.checked_add(1) {
            Some(t) => t,
            None => {
                proof {
                    assert(ss_total_sides(num_pages as nat, p) * side_pages
                        >= ss_total_sides(num_pages as nat, p)) by (nonlinear_arith)
                        requires
                            side_pages >= 1,
                    ;
                }
                return false;
            },
        }
    };
    proof {
        assert(total_sides == ss_total_sides(num_pages as nat, p));
    }
    total_sides.checked_mul(side_pages).is_some()
}

/// Whether the page numbers of perfect binding fit in a `usize` (the domain
/// of `calculate_perfect_bound_order`).
pub fn perfect_bound_fits(num_pages: usize, pages_per_sheet: usize, sheets_per_signature: usize) -> (r: bool)
    ensures
        r == pb_fits(num_pages as nat, pages_per_sheet as nat, sheets_per_signature as nat),
{
    if pages_per_sheet < 2 || !is_power_of_two(pages_per_sheet) || sheets_per_signature < 1
        || num_pages == 0 {
        return true;
    }
    let ghost n = num_pages as nat;
    let ghost p = pages_per_sheet as nat;
    let ghost sps = sheets_per_signature as nat;
    let (rows, cols) = calculate_saddle_stitch_grid(pages_per_sheet);
    let cut = (rows * cols) / 2;
    proof {
        assert(cut == pb_cut_sheets(p));
        assert(cut >= 1);
    }
    let k = ceil_div(sheets_per_signature, cut);
    proof {
        lemma_div_ceil_cover(sps, cut as nat);
        if k == 0 {
            assert(k * cut == 0) by (nonlinear_arith)
                requires
                    k == 0,
            ;
        }
        assert(k >= 1);
    }
    let pps = match pages_per_sheet.checked_mul(2) {
        Some(two_p) => match two_p.checked_mul(k) {
            Some(v) => v,
            None => {
                proof {
                    lemma_fits_large(n, pb_pages_per_signature(p, sps), pb_num_signatures(n, p, sps));
                }
                return false;
            },
        },
        None => {
            proof {
                assert(p * 2 * k >= p * 2) by (nonlinear_arith)
                    requires
                        k >= 1,
                ;
                lemma_fits_large(n, pb_pages_per_signature(p, sps), pb_num_signatures(n, p, sps));
            }
            return false;
        },
    };
    proof {
        assert(pps == p * 2 * k);
        assert(p * 2 * k >= 1) by (nonlinear_arith)
            requires
                p >= 2,
                k >= 1,
        ;
    }
    let nsig = ceil_div(num_pages, pps);
    proof {
        assert(pps == pb_pages_per_signature(p, sps));
        assert(nsig == pb_num_signatures(n, p, sps));
    }
    nsig.checked_mul(pps).is_some()
}

/// With at least one page, a product of signature count and signature size
/// beyond `usize::MAX` follows from a signature size beyond it.
proof fn lemma_fits_large(n: nat, pps: nat, nsig: nat)
    requires
        n >= 1,
        pps >= 1,
        nsig == div_ceil(n, pps),
    ensures
        pps > usize::MAX ==> nsig * pps > usize::MAX,
{
    lemma_div_ceil_cover(n, pps);
    if nsig == 0 {
        assert(nsig * pps == 0) by (nonlinear_arith)
            requires
                nsig == 0,
        ;
    }
    assert(nsig * pps >= pps) by (nonlinear_arith)
        requires
            nsig >= 1,
    ;
}

/// Whether a signature count's page numbers fit in a `usize` (the domain of
/// `calculate_page_order_with_signatures`).
pub fn signature_count_fits(num_pages: usize, pages_per_sheet: usize, num_signatures: usize) -> (r: bool)
    ensures
        r == sc_fits(num_pages as nat, pages_per_sheet as nat, num_signatures as nat),
{
    if pages_per_sheet < 2 || !is_power_of_two(pages_per_sheet) || num_signatures < 1
        || num_pages == 0 {
        return true;
    }
    if num_pages == usize::MAX {
        return false;
    }
    saddle_stitch_fits(ceil_div(num_pages, num_signatures), pages_per_sheet)
}

/// Whether `plan_booklet` accepts these parameters: their page numbers and
/// slot counts fit in a `usize`.
pub fn plan_fits(
    num_pages: usize,
    pages_per_sheet: usize,
    binding_type: BindingType,
    sheets_per_signature: usize,
    num_signatures: Option<usize>,
) -> (r: bool)
    ensures
        r == booklet_fits(
            num_pages as nat,
            pages_per_sheet as nat,
            binding_type,
            sheets_per_signature as nat,
            num_signatures,
        ),
{
    match (binding_type, num_signatures) {
        (BindingType::PerfectBound, Some(ns)) => signature_count_fits(num_pages, pages_per_sheet, ns),
        (BindingType::PerfectBound, None) => perfect_bound_fits(
            num_pages,
            pages_per_sheet,
            sheets_per_signature,
        ),
        (BindingType::SaddleStitch, _) => saddle_stitch_fits(num_pages, pages_per_sheet),
    }
}

} // verus!
