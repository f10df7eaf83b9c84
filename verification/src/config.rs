//! Binding choices and the validation of n-up values.

use vstd::prelude::*;

verus! {

/// `n` is a power of two (1, 2, 4, 8, ...).
pub open spec fn is_pow2(n: nat) -> bool
    decreases n,
{
    if n == 0 {
        false
    } else if n == 1 {
        true
    } else {
        n % 2 == 0 && is_pow2(n / 2)
    }
}

/// Whether `n` is a power of two. Zero is not; one (2^0) is.
pub fn is_power_of_two(n: usize) -> (r: bool)
    ensures
        r == is_pow2(n as nat),
{
    if n == 0 {
        return false;
    }
    let mut m: usize = n;
    while m > 1 && m % 2 == 0
        invariant
            m >= 1,
            is_pow2(m as nat) == is_pow2(n as nat),
        decreases m,
    {
        m = m / 2;
    }
    m == 1
}

/// The decimal digit `d` (for `d < 10`).
pub open spec fn digit_char(d: nat) -> char {
    if d == 0 {
        '0'
    } else if d == 1 {
        '1'
    } else if d == 2 {
        '2'
    } else if d == 3 {
        '3'
    } else if d == 4 {
        '4'
    } else if d == 5 {
        '5'
    } else if d == 6 {
        '6'
    } else if d == 7 {
        '7'
    } else if d == 8 {
        '8'
    } else {
        '9'
    }
}

/// The decimal representation of `v`, without leading zeros.
pub open spec fn decimal(v: nat) -> Seq<char>
    decreases v,
{
    if v < 10 {
        seq![digit_char(v)]
    } else {
        decimal(v / 10).push(digit_char(v % 10))
    }
}

/// The decimal representations of `vs`, separated by `", "`.
pub open spec fn join_decimals(vs: Seq<usize>) -> Seq<char>
    decreases vs.len(),
{
    if vs.len() == 0 {
        Seq::empty()
    } else if vs.len() == 1 {
        decimal(vs[0] as nat)
    } else {
        join_decimals(vs.drop_last()) + ", "@ + decimal(vs.last() as nat)
    }
}

/// The one-character string of digit `d`.
fn digit_str(d: usize) -> (r: &'static str)
    requires
        d < 10,
    ensures
        r@ == seq![digit_char(d as nat)],
{
    match d {
        0 => {
            proof {
                reveal_strlit("0");
            }
            "0"
        },
        1 => {
            proof {
                reveal_strlit("1");
            }
            "1"
        },
        2 => {
            proof {
                reveal_strlit("2");
            }
            "2"
        },
        3 => {
            proof {
                reveal_strlit("3");
            }
            "3"
        },
        4 => {
            proof {
                reveal_strlit("4");
            }
            "4"
        },
        5 => {
            proof {
                reveal_strlit("5");
            }
            "5"
        },
        6 => {
            proof {
                reveal_strlit("6");
            }
            "6"
        },
        7 => {
            proof {
                reveal_strlit("7");
            }
            "7"
        },
        8 => {
            proof {
                reveal_strlit("8");
            }
            "8"
        },
        _ => {
            proof {
                reveal_strlit("9");
            }
            "9"
        },
    }
}

/// Appends the decimal representation of `v` to `out`.
fn push_decimal(out: &mut String, v: usize)
    ensures
        final(out)@ == old(out)@ + decimal(v as nat),
    decreases v,
{
    if v >= 10 {
        push_decimal(out, v / 10);
    }
    out.append(digit_str(v % 10));
    proof {
        assert(out@ =~= old(out)@ + decimal(v as nat));
    }
}

/// Binding type for booklet imposition.
#[derive(Debug, Clone, Copy, PartialEq, Eq, Structural)]
pub enum BindingType {
    /// Sheets folded in half and nested, stapled through the fold.
    SaddleStitch,
    /// Pages grouped into signatures that are stacked and glued at the spine.
    PerfectBound,
}

impl Default for BindingType {
    fn default() -> (r: Self)
        ensures
            r == BindingType::SaddleStitch,
    {
        BindingType::SaddleStitch
    }
}

/// Valid pages-per-sheet values for saddle stitch binding: any power of two
/// from 2 upwards.
#[derive(Debug, Clone, Copy, PartialEq, Eq, Hash, Structural)]
pub enum SaddleStitchPages {
    /// 2-up
    Pages2,
    /// 4-up
    Pages4,
    /// 8-up
    Pages8,
    /// 16-up
    Pages16,
    /// 32-up
    Pages32,
    /// 64-up
    Pages64,
    /// Any larger power of two (128, 256, ...)
    Other(usize),
}

impl SaddleStitchPages {
    /// The value that `from_usize` gives for `value`.
    pub open spec fn spec_from_usize(value: usize) -> Option<SaddleStitchPages> {
        if value < 2 || !is_pow2(value as nat) {
            None
        } else if value == 2 {
            Some(SaddleStitchPages::Pages2)
        } else if value == 4 {
            Some(SaddleStitchPages::Pages4)
        } else if value == 8 {
            Some(SaddleStitchPages::Pages8)
        } else if value == 16 {
            Some(SaddleStitchPages::Pages16)
        } else if value == 32 {
            Some(SaddleStitchPages::Pages32)
        } else if value == 64 {
            Some(SaddleStitchPages::Pages64)
        } else {
            Some(SaddleStitchPages::Other(value))
        }
    }

    /// Try to create from a numeric value: any power of two that is at
    /// least 2 is accepted, every other value is refused.
    pub fn from_usize(value: usize) -> (r: Option<Self>)
        ensures
            r == Self::spec_from_usize(value),
            r is Some <==> (value >= 2 && is_pow2(value as nat)),
    {
        if !is_power_of_two(value) || value < 2 {
            return None;
        }
        match value {
            2 => Some(SaddleStitchPages::Pages2),
            4 => Some(SaddleStitchPages::Pages4),
            8 => Some(SaddleStitchPages::Pages8),
            16 => Some(SaddleStitchPages::Pages16),
            32 => Some(SaddleStitchPages::Pages32),
            64 => Some(SaddleStitchPages::Pages64),
            _ => Some(SaddleStitchPages::Other(value)),
        }
    }

    /// Common predefined values, for help text.
    pub fn common_values() -> (r: &'static [usize])
        ensures
            r@ == seq![2usize, 4, 8, 16, 32, 64],
    {
        &[2, 4, 8, 16, 32, 64]
    }

    /// The common values, then a note that any larger power of two works.
    pub fn valid_values_string() -> (r: String)
        ensures
            r@ == join_decimals(seq![2usize, 4, 8, 16, 32, 64]) + " (or any power of 2: 128, 256, 512, 1024, ...)"@,
    {
        let values = Self::common_values();
        let mut out = String::new();
        let mut i: usize = 0;
        while i < values.len()
            invariant
                values@ == seq![2usize, 4, 8, 16, 32, 64],
                i <= values@.len(),
                out@ == join_decimals(values@.take(i as int)),
            decreases values@.len() - i,
        {
            let ghost before = out@;
            if i > 0 {
                out.append(", ");
            }
            push_decimal(&mut out, values[i]);
            proof {
                reveal_strlit(", ");
                let t = values@.take(i + 1);
                assert(t.drop_last() =~= values@.take(i as int));
                assert(t.last() == values@[i as int]);
                if i == 0 {
                    assert(out@ =~= decimal(values@[0] as nat));
                } else {
                    assert(out@ =~= before + ", "@ + decimal(values@[i as int] as nat));
                }
            }
            i = i + 1;
        }
        proof {
            assert(values@.take(values@.len() as int) =~= values@);
        }
        out.append(" (or any power of 2: 128, 256, 512, 1024, ...)");
        out
    }

    /// A description of the valid values.
    pub fn valid_values_description() -> (r: &'static str)
        ensures
            r@ == "any power of 2 (2, 4, 8, 16, 32, 64, 128, 256, ...)"@,
    {
        "any power of 2 (2, 4, 8, 16, 32, 64, 128, 256, ...)"
    }
}


/// Grid layout dimensions (rows x columns).
#[derive(Debug, Clone, Copy, PartialEq, Eq, Structural)]
pub struct GridLayout {
    /// Number of rows in the grid
    pub rows: usize,
    /// Number of columns in the grid
    pub cols: usize,
}

impl GridLayout {
    /// Create a new grid layout.
    pub fn new(rows: usize, cols: usize) -> (r: Self)
        ensures
            r.rows == rows,
            r.cols == cols,
    {
        Self { rows, cols }
    }
}


/// The standard paper sizes for booklet output (custom sizes in points are
/// held by the application).
#[derive(Debug, Clone, Copy, PartialEq, Eq, Structural)]
pub enum PaperSize {
    /// A4 paper (210 x 297 mm)
    A4,
    /// A3 paper (297 x 420 mm)
    A3,
    /// A5 paper (148 x 210 mm)
    A5,
    /// Letter paper (8.5 x 11 inches)
    Letter,
    /// Legal paper (8.5 x 14 inches)
    Legal,
    /// Tabloid paper (11 x 17 inches)
    Tabloid,
}

/// The Unicode lowercase mapping of a string, as `str::to_lowercase`
/// computes it.
pub uninterp spec fn lowercase(s: Seq<char>) -> Seq<char>;

/// `c` in lowercase if it is an ASCII capital letter, else `c` itself.
pub open spec fn ascii_lower(c: char) -> char {
    if 'A' <= c && c <= 'Z' {
        ((c as u32) + 32) as char
    } else {
        c
    }
}

/// Every character of `s` is ASCII.
pub open spec fn all_ascii(s: Seq<char>) -> bool {
    forall|i: int| 0 <= i < s.len() ==> (#[trigger] s[i] as u32) < 128
}

/// Lowercases `s` with `str::to_lowercase`. Trusted: the result is the
/// Unicode lowercase mapping of `s`, named `lowercase` and not spelled out
/// here; it depends on `s` alone. Of ASCII text the Unicode data fixes the
/// mapping, and that much is stated: `A`-`Z` become `a`-`z`, every other
/// character stays.
#[verifier::external_body]
fn to_lowercase(s: &str) -> (r: String)
    ensures
        r@ == lowercase(s@),
        all_ascii(s@) ==> r@ == s@.map_values(|c: char| ascii_lower(c)),
{
    s.to_lowercase()
}

/// The paper size named by an already lowercased name.
pub open spec fn paper_from_lowercase(name: Seq<char>) -> Option<PaperSize> {
    if name == "a4"@ {
        Some(PaperSize::A4)
    } else if name == "a3"@ {
        Some(PaperSize::A3)
    } else if name == "a5"@ {
        Some(PaperSize::A5)
    } else if name == "letter"@ {
        Some(PaperSize::Letter)
    } else if name == "legal"@ {
        Some(PaperSize::Legal)
    } else if name == "tabloid"@ {
        Some(PaperSize::Tabloid)
    } else {
        None
    }
}

impl PaperSize {
    /// The paper size named by `name`, which is expected in lowercase:
    /// `a4`, `a3`, `a5`, `letter`, `legal` or `tabloid`; `None` otherwise.
    pub fn from_lowercase_name(name: &str) -> (r: Option<PaperSize>)
        ensures
            r == paper_from_lowercase(name@),
    {
        let name = name.to_owned();
        if name == "a4".to_owned() {
            Some(PaperSize::A4)
        } else if name == "a3".to_owned() {
            Some(PaperSize::A3)
        } else if name == "a5".to_owned() {
            Some(PaperSize::A5)
        } else if name == "letter".to_owned() {
            Some(PaperSize::Letter)
        } else if name == "legal".to_owned() {
            Some(PaperSize::Legal)
        } else if name == "tabloid".to_owned() {
            Some(PaperSize::Tabloid)
        } else {
            None
        }
    }

    /// The paper size named by `s`, in any letter case.
    pub fn from_name(s: &str) -> (r: Option<PaperSize>)
        ensures
            r == paper_from_lowercase(lowercase(s@)),
            all_ascii(s@) ==> r == paper_from_lowercase(s@.map_values(|c: char| ascii_lower(c))),
    {
        let lower = to_lowercase(s);
        Self::from_lowercase_name(lower.as_str())
    }

    /// Width and height in points (1/72 inch), portrait.
    pub fn points(&self) -> (r: (u32, u32))
        ensures
            r == match self {
                PaperSize::A4 => (595u32, 842u32),
                PaperSize::A3 => (842u32, 1191u32),
                PaperSize::A5 => (420u32, 595u32),
                PaperSize::Letter => (612u32, 792u32),
                PaperSize::Legal => (612u32, 1008u32),
                PaperSize::Tabloid => (792u32, 1224u32),
            },
    {
        match self {
            // DIN A series (1 mm = 2.83465 points)
            PaperSize::A4 => (595, 842),
            PaperSize::A3 => (842, 1191),
            PaperSize::A5 => (420, 595),
            // US paper sizes (1 inch = 72 points)
            PaperSize::Letter => (612, 792),
            PaperSize::Legal => (612, 1008),
            PaperSize::Tabloid => (792, 1224),
        }
    }
}

} // verus!
