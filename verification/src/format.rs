//! Small text helpers: decimal rendering, thousands separators, the
//! delimiter's display name, and row-range parsing.

use vstd::prelude::*;

use crate::text::string_from_chars;
use crate::text::str_to_chars;

verus! {

/// The character for one decimal digit value.
pub open spec fn dec_digit(n: int) -> char {
    if n == 0 {
        '0'
    } else if n == 1 {
        '1'
    } else if n == 2 {
        '2'
    } else if n == 3 {
        '3'
    } else if n == 4 {
        '4'
    } else if n == 5 {
        '5'
    } else if n == 6 {
        '6'
    } else if n == 7 {
        '7'
    } else if n == 8 {
        '8'
    } else {
        '9'
    }
}

/// The decimal representation of a non-negative integer, most
/// significant digit first.
pub open spec fn dec_str(n: int) -> Seq<char>
    decreases n,
{
    if n < 10 {
        seq![dec_digit(n)]
    } else {
        dec_str(n / 10).push(dec_digit(n % 10))
    }
}

/// The character for the digit value `n % 10`.
fn digit_char(n: usize) -> (c: char)
    ensures
        c == dec_digit(n as int % 10),
{
    match n % 10 {
        0 => '0',
        1 => '1',
        2 => '2',
        3 => '3',
        4 => '4',
        5 => '5',
        6 => '6',
        7 => '7',
        8 => '8',
        _ => '9',
    }
}

/// Append the decimal digits of `n` to `out`.
fn push_decimal(n: usize, out: &mut Vec<char>)
    ensures
        final(out)@ == old(out)@ + dec_str(n as int),
    decreases n,
{
    if n >= 10 {
        push_decimal(n / 10, out);
    }
    let c = digit_char(n);
    out.push(c);
    proof {
        if n < 10 {
            assert(old(out)@ + dec_str(n as int) =~= old(out)@.push(dec_digit(n as int)));
        } else {
            assert(old(out)@ + dec_str(n as int) =~= (old(out)@ + dec_str(n as int / 10)).push(
                dec_digit(n as int % 10),
            ));
        }
    }
}

/// The decimal representation of `n` as a string.
pub fn usize_to_string(n: usize) -> (r: String)
    ensures
        r@ == dec_str(n as int),
{
    let mut out: Vec<char> = Vec::new();
    push_decimal(n, &mut out);
    proof {
        assert(Seq::<char>::empty() + dec_str(n as int) =~= dec_str(n as int));
    }
    string_from_chars(&out)
}

/// `s` with a comma before every later group of three characters,
/// counted from the end.
pub open spec fn with_commas_upto(s: Seq<char>, j: int) -> Seq<char>
    decreases j,
{
    if j <= 0 {
        Seq::empty()
    } else {
        with_commas_upto(s, j - 1) + (if j - 1 > 0 && (s.len() - (j - 1)) % 3 == 0 {
            seq![',']
        } else {
            Seq::empty()
        }) + seq![s[j - 1]]
    }
}

/// The comma-separated form of a whole digit string.
pub open spec fn with_commas(s: Seq<char>) -> Seq<char> {
    with_commas_upto(s, s.len() as int)
}

/// Format a number with comma separators between thousands.
pub fn format_number(n: usize) -> (r: String)
    ensures
        r@ == with_commas(dec_str(n as int)),
{
    let mut digits: Vec<char> = Vec::new();
    push_decimal(n, &mut digits);
    proof {
        assert(digits@ =~= dec_str(n as int));
    }
    let len = digits.len();
    let mut out: Vec<char> = Vec::new();
    let mut i: usize = 0;
    while i < len
        invariant
            i <= len,
            len == digits@.len(),
            out@ == with_commas_upto(digits@, i as int),
        decreases len - i,
    {
        if i > 0 && (len - i) % 3 == 0 {
            out.push(',');
        }
        let c = digits[i];
        out.push(c);
        proof {
            assert(out@ =~= with_commas_upto(digits@, i + 1 as int));
        }
        i = i + 1;
    }
    string_from_chars(&out)
}

/// The display name of a delimiter byte.
pub open spec fn delimiter_name_spec(delim: u8) -> Seq<char> {
    if delim == 44 {
        "comma"@
    } else if delim == 9 {
        "tab"@
    } else if delim == 59 {
        "semicolon"@
    } else if delim == 124 {
        "pipe"@
    } else {
        "unknown"@
    }
}

/// A human-readable name for a delimiter byte.
pub fn delimiter_name(delim: u8) -> (r: &'static str)
    ensures
        r@ == delimiter_name_spec(delim),
{
    if delim == 44 {
        "comma"
    } else if delim == 9 {
        "tab"
    } else if delim == 59 {
        "semicolon"
    } else if delim == 124 {
        "pipe"
    } else {
        "unknown"
    }
}

/// True of the line-breaking and spacing characters trimmed from the
/// ends of a range argument.
pub open spec fn is_space_char(c: char) -> bool {
    c == ' ' || c == '\t' || c == '\n' || c == '\r'
}

/// True when the character is a decimal digit.
pub open spec fn is_digit_char(c: char) -> bool {
    c == '0' || c == '1' || c == '2' || c == '3' || c == '4' || c == '5' || c == '6' || c == '7'
        || c == '8' || c == '9'
}

/// The numeric value of a digit character.
pub open spec fn digit_val(c: char) -> int {
    if c == '0' {
        0
    } else if c == '1' {
        1
    } else if c == '2' {
        2
    } else if c == '3' {
        3
    } else if c == '4' {
        4
    } else if c == '5' {
        5
    } else if c == '6' {
        6
    } else if c == '7' {
        7
    } else if c == '8' {
        8
    } else {
        9
    }
}

/// Whether a character sequence is one or more decimal digits.
pub open spec fn all_digits(s: Seq<char>) -> bool {
    s.len() > 0 && forall|i: int| 0 <= i < s.len() ==> is_digit_char(s[i])
}

/// The numeric value of the first `j` characters of a digit string.
pub open spec fn digits_val_upto(s: Seq<char>, j: int) -> int
    decreases j,
{
    if j <= 0 {
        0
    } else {
        digits_val_upto(s, j - 1) * 10 + digit_val(s[j - 1])
    }
}

/// The numeric value of a whole digit string.
pub open spec fn digits_val(s: Seq<char>) -> int {
    digits_val_upto(s, s.len() as int)
}

/// The sequence with leading and trailing spacing characters removed.
pub open spec fn trimmed(s: Seq<char>) -> Seq<char>
    decreases s.len(),
{
    if s.len() == 0 {
        s
    } else if is_space_char(s[0]) {
        trimmed(s.drop_first())
    } else if is_space_char(s[s.len() - 1]) {
        trimmed(s.drop_last())
    } else {
        s
    }
}

/// Decide whether a character is trimmed from a range argument.
fn space_char(c: char) -> (r: bool)
    ensures
        r == is_space_char(c),
{
    c == ' ' || c == '\t' || c == '\n' || c == '\r'
}

/// Remove leading and trailing spacing characters.
fn trim_chars(v: &Vec<char>) -> (r: Vec<char>)
    ensures
        r@ == trimmed(v@),
{
    let mut lo: usize = 0;
    let mut hi: usize = v.len();
    proof {
        assert(v@.subrange(0, v@.len() as int) =~= v@);
    }
    while lo < hi && space_char(v[lo])
        invariant
            lo <= hi <= v@.len(),
            trimmed(v@) == trimmed(v@.subrange(lo as int, hi as int)),
            hi == v@.len(),
        decreases hi - lo,
    {
        proof {
            assert(v@.subrange(lo as int, hi as int).drop_first() =~= v@.subrange(
                lo + 1 as int,
                hi as int,
            ));
        }
        lo = lo + 1;
    }
    while lo < hi && space_char(v[hi - 1])
        invariant
            lo <= hi <= v@.len(),
            trimmed(v@) == trimmed(v@.subrange(lo as int, hi as int)),
            lo < hi ==> !is_space_char(v@[lo as int]),
        decreases hi - lo,
    {
        proof {
            assert(v@.subrange(lo as int, hi as int).drop_last() =~= v@.subrange(
                lo as int,
                hi - 1 as int,
            ));
        }
        hi = hi - 1;
    }
    let mut r: Vec<char> = Vec::new();
    let mut i: usize = lo;
    while i < hi
        invariant
            lo <= i <= hi <= v@.len(),
            r@ == v@.subrange(lo as int, i as int),
        decreases hi - i,
    {
        let c = v[i];
        r.push(c);
        proof {
            assert(v@.subrange(lo as int, i + 1 as int) =~= v@.subrange(lo as int, i as int).push(
                v@[i as int],
            ));
        }
        i = i + 1;
    }
    proof {
        let w = v@.subrange(lo as int, hi as int);
        if w.len() > 0 {
            assert(!is_space_char(w[0]));
            assert(!is_space_char(w[w.len() - 1]));
        }
        assert(trimmed(w) == w);
        assert(r@ =~= w);
    }
    r
}

/// Parse a trimmed digit string as a `usize`; `None` when it is empty,
/// holds a non-digit, or does not fit.
fn parse_usize_chars(v: &Vec<char>) -> (r: Option<usize>)
    ensures
        match r {
            Option::Some(k) => all_digits(v@) && k as int == digits_val(v@),
            Option::None => !all_digits(v@) || digits_val(v@) > usize::MAX,
        },
{
    let n = v.len();
    if n == 0 {
        return Option::None;
    }
    let mut acc: usize = 0;
    let mut i: usize = 0;
    while i < n
        invariant
            i <= n,
            n == v@.len(),
            forall|k: int| 0 <= k < i ==> is_digit_char(v@[k]),
            acc as int == digits_val_upto(v@, i as int),
        decreases n - i,
    {
        let c = v[i];
        let d: usize = match c {
            '0' => 0,
            '1' => 1,
            '2' => 2,
            '3' => 3,
            '4' => 4,
            '5' => 5,
            '6' => 6,
            '7' => 7,
            '8' => 8,
            '9' => 9,
            _ => {
                proof {
                    assert(!is_digit_char(v@[i as int]));
                }
                return Option::None;
            },
        };
        proof {
            assert(is_digit_char(v@[i as int]) && d as int == digit_val(v@[i as int]));
        }
        if acc > (usize::MAX - d) / 10 {
            proof {
                lemma_digits_val_grows(v@, i + 1 as int, v@.len() as int);
                assert(digits_val_upto(v@, i + 1 as int) == acc as int * 10 + d);
                assert(acc as int * 10 + d > usize::MAX) by (nonlinear_arith)
                    requires
                        acc as int > (usize::MAX as int - d) / 10,
                        0 <= d <= 9,
                        acc as int >= 0,
                ;
            }
            return Option::None;
        }
        acc = acc * 10 + d;
        i = i + 1;
    }
    Option::Some(acc)
}

/// A longer digit prefix never has a smaller value.
proof fn lemma_digits_val_grows(s: Seq<char>, j: int, k: int)
    requires
        0 <= j <= k,
        forall|t: int| 0 <= t < j ==> is_digit_char(s[t]),
    ensures
        digits_val_upto(s, k) >= digits_val_upto(s, j) >= 0,
    decreases k - j,
{
    if j == k {
        lemma_digits_val_nonneg(s, j);
    } else {
        lemma_digits_val_grows(s, j, k - 1);
        lemma_digits_val_nonneg(s, j);
        assert(digits_val_upto(s, k) == digits_val_upto(s, k - 1) * 10 + digit_val(s[k - 1]));
        assert(digits_val_upto(s, k - 1) * 10 >= digits_val_upto(s, k - 1)) by (nonlinear_arith)
            requires
                digits_val_upto(s, k - 1) >= 0,
        ;
    }
}

proof fn lemma_digits_val_nonneg(s: Seq<char>, j: int)
    ensures
        digits_val_upto(s, j) >= 0,
    decreases j,
{
    if j > 0 {
        lemma_digits_val_nonneg(s, j - 1);
        assert(digits_val_upto(s, j - 1) * 10 >= 0) by (nonlinear_arith)
            requires
                digits_val_upto(s, j - 1) >= 0,
        ;
    }
}

/// The position of the first `-` in the sequence, or its length.
pub open spec fn dash_pos(s: Seq<char>) -> int
    decreases s.len(),
{
    if s.len() == 0 {
        0
    } else if s[0] == '-' {
        0
    } else {
        1 + dash_pos(s.drop_first())
    }
}

proof fn lemma_dash_pos(s: Seq<char>)
    ensures
        0 <= dash_pos(s) <= s.len(),
        dash_pos(s) < s.len() ==> s[dash_pos(s)] == '-',
        forall|k: int| 0 <= k < dash_pos(s) ==> s[k] != '-',
    decreases s.len(),
{
    if s.len() > 0 && s[0] != '-' {
        lemma_dash_pos(s.drop_first());
        assert(forall|k: int| 1 <= k < dash_pos(s) ==> s[k] == s.drop_first()[k - 1]);
    }
}

/// The row range a view argument denotes: `None` stands for the first
/// twenty rows; `"a-b"` for the inclusive range `a..=b`; a single number
/// for that one row. The right end is clipped to the row count; a
/// malformed number yields nothing.
pub open spec fn row_range_spec(arg: Option<Seq<char>>, row_count: int) -> Option<(int, int)> {
    match arg {
        Option::None => Option::Some(
            (0int, if row_count < 20 {
                row_count
            } else {
                20
            }),
        ),
        Option::Some(s) => {
            let p = dash_pos(s);
            if p < s.len() {
                let left = trimmed(s.subrange(0, p));
                let right = trimmed(s.subrange(p + 1, s.len() as int));
                if all_digits(left) && digits_val(left) <= usize::MAX && all_digits(right)
                    && digits_val(right) + 1 <= usize::MAX {
                    Option::Some(
                        (digits_val(left), if digits_val(right) + 1 < row_count {
                            digits_val(right) + 1
                        } else {
                            row_count
                        }),
                    )
                } else {
                    Option::None
                }
            } else {
                let w = trimmed(s);
                if all_digits(w) && digits_val(w) + 1 <= usize::MAX {
                    Option::Some(
                        (digits_val(w), if digits_val(w) + 1 < row_count {
                            digits_val(w) + 1
                        } else {
                            row_count
                        }),
                    )
                } else {
                    Option::None
                }
            }
        },
    }
}

/// Parse a row range argument like `"100-200"` or `"100"` into a
/// half-open `(start, end)` pair, clipping `end` to the row count.
pub fn parse_row_range(arg: Option<&str>, row_count: usize) -> (r: Option<(usize, usize)>)
    ensures
        match r {
            Option::Some(p) => row_range_spec(
                match arg {
                    Option::Some(s) => Option::Some(s@),
                    Option::None => Option::<Seq<char>>::None,
                },
                row_count as int,
            ) == Option::Some((p.0 as int, p.1 as int)),
            Option::None => row_range_spec(
                match arg {
                    Option::Some(s) => Option::Some(s@),
                    Option::None => Option::<Seq<char>>::None,
                },
                row_count as int,
            ) is None,
        },
{
    match arg {
        Option::None => {
            let end = if row_count < 20 {
                row_count
            } else {
                20
            };
            Option::Some((0, end))
        },
        Option::Some(s) => {
            let chars = str_to_chars(s);
            proof {
                lemma_dash_pos(s@);
            }
            let n = chars.len();
            let mut p: usize = 0;
            while p < n && chars[p] != '-'
                invariant
                    p <= n,
                    n == chars@.len(),
                    chars@ == s@,
                    forall|k: int| 0 <= k < p ==> s@[k] != '-',
                decreases n - p,
            {
                p = p + 1;
            }
            proof {
                lemma_dash_pos(s@);
                if p < n {
                    assert(s@[p as int] == '-');
                    assert(dash_pos(s@) == p as int) by {
                        if dash_pos(s@) < p {
                            assert(s@[dash_pos(s@)] == '-');
                        }
                    }
                } else {
                    assert(dash_pos(s@) == n as int) by {
                        if dash_pos(s@) < n {
                            assert(s@[dash_pos(s@)] == '-');
                        }
                    }
                }
            }
            if p < n {
                let mut left: Vec<char> = Vec::new();
                let mut i: usize = 0;
                while i < p
                    invariant
                        i <= p <= n,
                        n == chars@.len(),
                        chars@ == s@,
                        left@ == s@.subrange(0, i as int),
                    decreases p - i,
                {
                    let c = chars[i];
                    left.push(c);
                    proof {
                        assert(s@.subrange(0, i + 1 as int) =~= s@.subrange(0, i as int).push(
                            s@[i as int],
                        ));
                    }
                    i = i + 1;
                }
                let mut right: Vec<char> = Vec::new();
                let mut j: usize = p + 1;
                while j < n
                    invariant
                        p + 1 <= j <= n,
                        n == chars@.len(),
                        chars@ == s@,
                        right@ == s@.subrange(p + 1 as int, j as int),
                    decreases n - j,
                {
                    let c = chars[j];
                    right.push(c);
                    proof {
                        assert(s@.subrange(p + 1 as int, j + 1 as int) =~= s@.subrange(
                            p + 1 as int,
                            j as int,
                        ).push(s@[j as int]));
                    }
                    j = j + 1;
                }
                proof {
                    assert(left@ =~= s@.subrange(0, p as int));
                    assert(right@ =~= s@.subrange(p + 1 as int, n as int));
                }
                let lt = trim_chars(&left);
                let rt = trim_chars(&right);
                let start = match parse_usize_chars(&lt) {
                    Option::Some(v) => v,
                    Option::None => {
                        return Option::None;
                    },
                };
                let rv = match parse_usize_chars(&rt) {
                    Option::Some(v) => v,
                    Option::None => {
                        return Option::None;
                    },
                };
                if rv == usize::MAX {
                    return Option::None;
                }
                let end = if rv + 1 < row_count {
                    rv + 1
                } else {
                    row_count
                };
                Option::Some((start, end))
            } else {
                let w = trim_chars(&chars);
                let v = match parse_usize_chars(&w) {
                    Option::Some(v) => v,
                    Option::None => {
                        return Option::None;
                    },
                };
                if v == usize::MAX {
                    return Option::None;
                }
                let end = if v + 1 < row_count {
                    v + 1
                } else {
                    row_count
                };
                Option::Some((v, end))
            }
        },
    }
}

} // verus!
