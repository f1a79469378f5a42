//! Presentation formatting: decimal rendering of integers, abbreviation of
//! large counters, proportional progress bars and fixed-width names.
use vstd::prelude::*;
use vstd::string::StrSliceExecFns;
use vstd::string::StringExecFns;

verus! {

/// The character for a decimal digit value.
pub open spec fn digit_char(d: int) -> char {
    if d == 0 {
        '0'
    } else if d == 1 {
        '1'
    } else if d == 2 {
        '2'
    } else if d == 3 {
        '3'
    } else if d == 4 {
        '4'
    } else if d == 5 {
        '5'
    } else if d == 6 {
        '6'
    } else if d == 7 {
        '7'
    } else if d == 8 {
        '8'
    } else {
        '9'
    }
}

/// The usual decimal rendering of a non-negative integer, most significant
/// digit first, with no leading zeros (`0` itself is rendered as "0").
pub open spec fn spec_decimal(n: int) -> Seq<char>
    decreases n,
{
    if n < 10 {
        seq![digit_char(n)]
    } else {
        spec_decimal(n / 10).push(digit_char(n % 10))
    }
}

fn digit_str(d: u64) -> (r: &'static str)
    requires
        d < 10,
    ensures
        r@ == seq![digit_char(d as int)],
{
    proof {
        reveal_strlit("0");
        reveal_strlit("1");
        reveal_strlit("2");
        reveal_strlit("3");
        reveal_strlit("4");
        reveal_strlit("5");
        reveal_strlit("6");
        reveal_strlit("7");
        reveal_strlit("8");
        reveal_strlit("9");
    }
    if d == 0 {
        "0"
    } else if d == 1 {
        "1"
    } else if d == 2 {
        "2"
    } else if d == 3 {
        "3"
    } else if d == 4 {
        "4"
    } else if d == 5 {
        "5"
    } else if d == 6 {
        "6"
    } else if d == 7 {
        "7"
    } else if d == 8 {
        "8"
    } else {
        "9"
    }
}

/// Renders a non-negative integer in decimal.
pub fn decimal_string(n: u64) -> (r: String)
    ensures
        r@ == spec_decimal(n as int),
    decreases n,
{
    if n < 10 {
        digit_str(n).to_owned()
    } else {
        let mut r = decimal_string(n / 10);
        r.append(digit_str(n % 10));
        assert(r@ == spec_decimal(n as int / 10).push(digit_char(n as int % 10)));
        r
    }
}

/// A counter `n` is abbreviated as "<n/1000 to one decimal place>k" once it
/// reaches 1000, with ties rounded half up; below 1000 it is rendered as is.
pub open spec fn spec_abbreviated(n: int) -> Seq<char> {
    if n < 1000 {
        spec_decimal(n)
    } else {
        let tenths: int = n / 100 + (if n % 100 >= 50 {
            1int
        } else {
            0int
        });
        spec_decimal(tenths / 10) + seq!['.', digit_char(tenths % 10), 'k']
    }
}

/// Abbreviates a large counter for display: 950 stays "950", 2345 becomes
/// "2.3k".
pub fn abbreviate_number(n: u64) -> (r: String)
    ensures
        r@ == spec_abbreviated(n as int),
{
    proof {
        reveal_strlit(".");
        reveal_strlit("k");
    }
    if n < 1000 {
        decimal_string(n)
    } else {
        let tenths: u64 = n / 100 + (if n % 100 >= 50 {
            1
        } else {
            0
        });
        let mut r = decimal_string(tenths / 10);
        r.append(".");
        r.append(digit_str(tenths % 10));
        r.append("k");
        assert(r@ =~= spec_abbreviated(n as int));
        r
    }
}

/// `k` copies of the character `c`.
pub open spec fn repeat_char(c: char, k: int) -> Seq<char>
    decreases k,
{
    if k <= 0 {
        Seq::empty()
    } else {
        repeat_char(c, k - 1).push(c)
    }
}

/// A ten-cell bar for a percentage given in hundredths of a percent: the
/// number of filled cells is the percentage divided by ten and rounded half
/// up; the remaining cells up to ten are empty. A value over 100% yields more
/// than ten filled cells and no empty ones rather than a failure.
pub open spec fn spec_bar(pct_centi: int) -> Seq<char> {
    let filled: int = pct_centi / 1000 + (if pct_centi % 1000 >= 500 {
        1int
    } else {
        0int
    });
    let empty: int = if filled >= 10 {
        0int
    } else {
        10 - filled
    };
    repeat_char('▓', filled) + repeat_char('░', empty)
}

/// Renders the proportional bar for a percentage expressed in hundredths of a
/// percent (so 4500 stands for 45.00%).
pub fn render_progress_bar(pct_centi: u64) -> (r: String)
    ensures
        r@ == spec_bar(pct_centi as int),
{
    proof {
        reveal_strlit("▓");
        reveal_strlit("░");
    }
    let filled: u64 = pct_centi / 1000 + (if pct_centi % 1000 >= 500 {
        1
    } else {
        0
    });
    let empty: u64 = if filled >= 10 {
        0
    } else {
        10 - filled
    };
    let mut r = String::new();
    let mut i: u64 = 0;
    while i < filled
        invariant
            i <= filled,
            r@ == repeat_char('▓', i as int),
        decreases filled - i,
    {
        r.append("▓");
        i = i + 1;
        proof {
            reveal_strlit("▓");
            assert(r@ =~= repeat_char('▓', i as int));
        }
    }
    let mut j: u64 = 0;
    while j < empty
        invariant
            j <= empty,
            r@ == repeat_char('▓', filled as int) + repeat_char('░', j as int),
        decreases empty - j,
    {
        r.append("░");
        j = j + 1;
        proof {
            reveal_strlit("░");
            assert(r@ =~= repeat_char('▓', filled as int) + repeat_char('░', j as int));
        }
    }
    assert(r@ =~= spec_bar(pct_centi as int));
    r
}

/// The display-name override table: two names are shortened for layout, all
/// others pass through unchanged.
pub open spec fn spec_display_name(s: Seq<char>) -> Seq<char> {
    if s == "Visual Basic .NET"@ {
        "VB.NET"@
    } else if s == "Jupyter Notebook"@ {
        "Jupyter"@
    } else {
        s
    }
}

/// Applies the display-name override table to a language name.
pub fn format_lang_name(lang: &str) -> (r: String)
    ensures
        r@ == spec_display_name(lang@),
{
    let vb: String = "Visual Basic .NET".to_owned();
    let jn: String = "Jupyter Notebook".to_owned();
    let l: String = lang.to_owned();
    if l == vb {
        "VB.NET".to_owned()
    } else if l == jn {
        "Jupyter".to_owned()
    } else {
        l
    }
}

/// A display name is left-justified in a field of 15 characters; a longer
/// name is kept whole.
pub open spec fn spec_padded(s: Seq<char>) -> Seq<char> {
    if s.len() >= 15 {
        s
    } else {
        s + repeat_char(' ', 15 - s.len())
    }
}

/// Left-justifies a language name to the fixed display width of 15.
pub fn pad_lang_name(s: &str) -> (r: String)
    ensures
        r@ == spec_padded(s@),
{
    proof {
        reveal_strlit(" ");
    }
    let n: usize = s.unicode_len();
    let mut r: String = s.to_owned();
    assert(r@ =~= s@ + repeat_char(' ', 0));
    let mut i: usize = n;
    while i < 15
        invariant
            n == s@.len(),
            n <= i,
            i <= 15 || i == n,
            r@ == s@ + repeat_char(' ', i - n),
        decreases 15 - i,
    {
        r.append(" ");
        i = i + 1;
        proof {
            reveal_strlit(" ");
            assert(r@ =~= s@ + repeat_char(' ', i - n));
        }
    }
    assert(r@ =~= spec_padded(s@));
    r
}

/// A percentage in hundredths of a percent is rendered with two decimal
/// places and a trailing percent sign, as in "50.00%".
pub open spec fn spec_percent_str(pct_centi: int) -> Seq<char> {
    spec_decimal(pct_centi / 100) + seq![
        '.',
        digit_char((pct_centi / 10) % 10),
        digit_char(pct_centi % 10),
        '%',
    ]
}

/// Renders a percentage given in hundredths of a percent, e.g. 5000 as
/// "50.00%".
pub fn percent_string(pct_centi: u64) -> (r: String)
    ensures
        r@ == spec_percent_str(pct_centi as int),
{
    proof {
        reveal_strlit(".");
        reveal_strlit("%");
    }
    let mut r = decimal_string(pct_centi / 100);
    r.append(".");
    r.append(digit_str((pct_centi / 10) % 10));
    r.append(digit_str(pct_centi % 10));
    r.append("%");
    assert(r@ =~= spec_percent_str(pct_centi as int));
    r
}

/// The exact percentage `bytes / total * 100`, expressed in hundredths of a
/// percent and rounded half up: the unique integer nearest to
/// `bytes * 10000 / total` (ties upward).
pub open spec fn spec_pct_centi(bytes: int, total: int) -> int {
    (20000 * bytes + total) / (2 * total)
}

/// Computes the percentage `bytes / total * 100` in hundredths of a percent,
/// rounded half up.
pub fn percentage_centi(bytes: u64, total: u64) -> (r: u64)
    requires
        0 < total,
        bytes <= total,
    ensures
        r as int == spec_pct_centi(bytes as int, total as int),
        r <= 10000,
{
    let num: u128 = 20000u128 * (bytes as u128) + (total as u128);
    let den: u128 = 2u128 * (total as u128);
    let q: u128 = num / den;
    proof {
        let b: int = bytes as int;
        let t: int = total as int;
        assert((20000 * b + t) / (2 * t) <= 10000) by (nonlinear_arith)
            requires
                0 < t,
                b <= t,
        ;
    }
    q as u64
}

} // verus!
