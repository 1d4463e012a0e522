//! Delimiter inference and quoting-aware parsing and serialization of one
//! logical row.
//!
//! Everything here is defined twice: once as executable code, and once as
//! spec functions over `Seq<u8>` / `Seq<char>` that the contracts and the
//! round-trip law speak of.

use vstd::prelude::*;
use vstd::slice::slice_index_get;
use vstd::slice::slice_subrange;
use vstd::slice::slice_to_vec;
use vstd::utf8::decode_utf8;
use vstd::utf8::valid_utf8;

use crate::error::MassiveCsvError;
use crate::text::bytes_to_string;
use crate::text::str_to_chars;
use crate::text::string_from_chars;

verus! {

/// The double-quote byte.
pub const QUOTE_BYTE: u8 = 34;

/// The line-feed byte.
pub const NEWLINE_BYTE: u8 = 10;

/// The carriage-return byte.
pub const CR_BYTE: u8 = 13;

/// Supported CSV delimiters.
#[derive(Debug, Clone, Copy, PartialEq, Eq, Structural)]
pub enum Delimiter {
    Comma,
    Tab,
    Semicolon,
    Pipe,
}

impl Delimiter {
    /// The byte this delimiter stands for.
    pub open spec fn spec_byte(self) -> u8 {
        match self {
            Delimiter::Comma => 44,
            Delimiter::Tab => 9,
            Delimiter::Semicolon => 59,
            Delimiter::Pipe => 124,
        }
    }

    /// The byte this delimiter stands for.
    pub fn as_byte(self) -> (b: u8)
        ensures
            b == self.spec_byte(),
    {
        match self {
            Delimiter::Comma => 44,
            Delimiter::Tab => 9,
            Delimiter::Semicolon => 59,
            Delimiter::Pipe => 124,
        }
    }

    /// Every candidate delimiter, in preference order.
    pub fn all() -> (v: Vec<Delimiter>)
        ensures
            v@ == delimiter_order(),
    {
        let mut v: Vec<Delimiter> = Vec::new();
        v.push(Delimiter::Comma);
        v.push(Delimiter::Tab);
        v.push(Delimiter::Semicolon);
        v.push(Delimiter::Pipe);
        proof {
            assert(v@ =~= delimiter_order());
        }
        v
    }
}

/// The candidate delimiters in the order they are tried.
pub open spec fn delimiter_order() -> Seq<Delimiter> {
    seq![Delimiter::Comma, Delimiter::Tab, Delimiter::Semicolon, Delimiter::Pipe]
}

/// Every candidate delimiter's byte is distinct from the quote,
/// carriage-return, and line-feed bytes.
pub proof fn lemma_delimiter_byte_benign(d: Delimiter)
    ensures
        d.spec_byte() != QUOTE_BYTE,
        d.spec_byte() != CR_BYTE,
        d.spec_byte() != NEWLINE_BYTE,
{
}

/// Position of the first occurrence of `b` in `data` at or after `from`,
/// or `data.len()` if there is none.
pub open spec fn find_byte(data: Seq<u8>, b: u8, from: int) -> int
    decreases data.len() - from,
{
    if from < 0 || from >= data.len() {
        data.len() as int
    } else if data[from] == b {
        from
    } else {
        find_byte(data, b, from + 1)
    }
}

proof fn lemma_find_byte_range(data: Seq<u8>, b: u8, from: int)
    requires
        0 <= from <= data.len(),
    ensures
        from <= find_byte(data, b, from) <= data.len(),
        forall|k: int| from <= k < find_byte(data, b, from) ==> data[k] != b,
        find_byte(data, b, from) < data.len() ==> data[find_byte(data, b, from)] == b,
    decreases data.len() - from,
{
    if from < data.len() && data[from] != b {
        lemma_find_byte_range(data, b, from + 1);
    }
}

/// Drop one trailing carriage return, if present.
pub open spec fn strip_cr(b: Seq<u8>) -> Seq<u8> {
    if b.len() > 0 && b[b.len() - 1] == CR_BYTE {
        b.drop_last()
    } else {
        b
    }
}

/// The logical line beginning at `start`: bytes up to (not including) the
/// next line feed, with one trailing carriage return dropped.
pub open spec fn line_at(data: Seq<u8>, start: int) -> Seq<u8> {
    strip_cr(data.subrange(start, find_byte(data, NEWLINE_BYTE, start)))
}

/// The first `n` logical lines of `data`, starting at byte `start`.
pub open spec fn sample_lines(data: Seq<u8>, start: int, n: nat) -> Seq<Seq<u8>>
    decreases n,
{
    if n == 0 || start >= data.len() || start < 0 {
        Seq::empty()
    } else {
        let end = find_byte(data, NEWLINE_BYTE, start);
        seq![line_at(data, start)] + sample_lines(data, end + 1, (n - 1) as nat)
    }
}

proof fn lemma_sample_lines_bounds(data: Seq<u8>, start: int, n: nat)
    requires
        0 <= start,
    ensures
        sample_lines(data, start, n).len() <= n,
        forall|k: int|
            0 <= k < sample_lines(data, start, n).len()
                ==> #[trigger] sample_lines(data, start, n)[k].len() <= data.len(),
    decreases n,
{
    if n > 0 && start < data.len() {
        let end = find_byte(data, NEWLINE_BYTE, start);
        lemma_find_byte_range(data, NEWLINE_BYTE, start);
        lemma_sample_lines_bounds(data, end + 1, (n - 1) as nat);
    }
}

/// Number of quote bytes among the first `p` bytes of `line`.
pub open spec fn quotes_in(line: Seq<u8>, p: int) -> int
    decreases p,
{
    if p <= 0 {
        0
    } else {
        quotes_in(line, p - 1) + if line[p - 1] == QUOTE_BYTE {
            1int
        } else {
            0int
        }
    }
}

/// Number of delimiter bytes among the first `p` bytes of `line` that lie
/// outside a double-quote region.
pub open spec fn unquoted_delims(line: Seq<u8>, d: u8, p: int) -> int
    decreases p,
{
    if p <= 0 {
        0
    } else {
        unquoted_delims(line, d, p - 1) + if line[p - 1] == d && line[p - 1] != QUOTE_BYTE
            && quotes_in(line, p - 1) % 2 == 0 {
            1int
        } else {
            0int
        }
    }
}

proof fn lemma_unquoted_delims_bound(line: Seq<u8>, d: u8, p: int)
    ensures
        0 <= unquoted_delims(line, d, p) <= if p <= 0 {
            0int
        } else {
            p
        },
    decreases p,
{
    if p > 0 {
        lemma_unquoted_delims_bound(line, d, p - 1);
    }
}

/// The unquoted field count of one line: one more than the number of
/// delimiter bytes outside quote regions.
pub open spec fn count_fields_spec(line: Seq<u8>, d: u8) -> int {
    1 + unquoted_delims(line, d, line.len() as int)
}

/// Count fields by counting unquoted delimiters, plus one.
pub fn count_fields(line: &[u8], delimiter: u8) -> (c: usize)
    requires
        line@.len() < usize::MAX,
    ensures
        c == count_fields_spec(line@, delimiter),
{
    let n = line.len();
    let mut count: usize = 1;
    let mut in_quotes: bool = false;
    let mut i: usize = 0;
    while i < n
        invariant
            n == line@.len() < usize::MAX,
            i <= n,
            in_quotes == (quotes_in(line@, i as int) % 2 == 1),
            count == 1 + unquoted_delims(line@, delimiter, i as int),
        decreases n - i,
    {
        proof {
            lemma_unquoted_delims_bound(line@, delimiter, i + 1 as int);
        }
        let b = *slice_index_get(line, i);
        if b == QUOTE_BYTE {
            in_quotes = !in_quotes;
        } else if b == delimiter && !in_quotes {
            count = count + 1;
        }
        i = i + 1;
    }
    count
}

/// Copy the byte range `[i, j)` of `data` into a fresh vector.
fn copy_range(data: &[u8], i: usize, j: usize) -> (v: Vec<u8>)
    requires
        i <= j <= data@.len(),
    ensures
        v@ == data@.subrange(i as int, j as int),
{
    slice_to_vec(slice_subrange(data, i, j))
}

/// Position of the first occurrence of `b` at or after `from`, or the
/// slice's length if there is none.
fn find_byte_from(data: &[u8], b: u8, from: usize) -> (r: usize)
    requires
        from <= data@.len(),
    ensures
        r == find_byte(data@, b, from as int),
        from <= r <= data@.len(),
{
    let n = data.len();
    let mut i: usize = from;
    while i < n
        invariant
            from <= i <= n,
            n == data@.len(),
            find_byte(data@, b, from as int) == find_byte(data@, b, i as int),
        decreases n - i,
    {
        if *slice_index_get(data, i) == b {
            return i;
        }
        i = i + 1;
    }
    i
}

/// The first logical line of `data`, or `None` when `data` is empty.
pub fn first_line(data: &[u8]) -> (r: Option<Vec<u8>>)
    ensures
        match r {
            Option::None => data@.len() == 0,
            Option::Some(v) => data@.len() > 0 && v@ == line_at(data@, 0),
        },
{
    if data.len() == 0 {
        return Option::None;
    }
    let end = find_byte_from(data, NEWLINE_BYTE, 0);
    let mut line = copy_range(data, 0, end);
    if line.len() > 0 && *slice_index_get(line.as_slice(), line.len() - 1) == CR_BYTE {
        line.pop();
        proof {
            assert(line@ =~= line_at(data@, 0));
        }
    }
    Option::Some(line)
}

/// The first `n` logical lines of `data`.
pub fn first_n_lines(data: &[u8], n: usize) -> (r: Vec<Vec<u8>>)
    requires
        data@.len() < usize::MAX,
    ensures
        r.deep_view() == sample_lines(data@, 0, n as nat),
{
    let mut lines: Vec<Vec<u8>> = Vec::new();
    let mut start: usize = 0;
    let mut k: usize = 0;
    while k < n && start < data.len()
        invariant
            k <= n,
            data@.len() < usize::MAX,
            sample_lines(data@, 0, n as nat) == lines.deep_view() + sample_lines(
                data@,
                start as int,
                (n - k) as nat,
            ),
            lines@.len() == k,
        decreases n - k,
    {
        let end = find_byte_from(data, NEWLINE_BYTE, start);
        let mut line = copy_range(data, start, end);
        if line.len() > 0 && *slice_index_get(line.as_slice(), line.len() - 1) == CR_BYTE {
            line.pop();
        }
        let ghost prev = lines.deep_view();
        proof {
            assert(line@ =~= line_at(data@, start as int));
            assert(sample_lines(data@, start as int, (n - k) as nat) == seq![
                line_at(data@, start as int),
            ] + sample_lines(data@, end + 1 as int, (n - (k + 1)) as nat));
        }
        lines.push(line);
        proof {
            assert(lines.deep_view() =~~= prev.push(line@));
            assert(prev + seq![line@] + sample_lines(data@, end + 1 as int, (n - (k + 1)) as nat)
                =~~= lines.deep_view() + sample_lines(data@, end + 1 as int, (n - (k + 1)) as nat));
        }
        start = end + 1;
        k = k + 1;
    }
    proof {
        assert(sample_lines(data@, start as int, (n - k) as nat) =~= Seq::<Seq<u8>>::empty());
        assert(lines.deep_view() =~~= sample_lines(data@, 0, n as nat));
    }
    lines
}

/// Consistency of `m` over a prefix of `lines`: how many of the first `j`
/// lines have unquoted field count exactly `m` for delimiter `d`.
pub open spec fn consistency_upto(lines: Seq<Seq<u8>>, d: u8, m: int, j: int) -> int
    decreases j,
{
    if j <= 0 {
        0
    } else {
        consistency_upto(lines, d, m, j - 1) + if count_fields_spec(lines[j - 1], d) == m {
            1int
        } else {
            0int
        }
    }
}

/// The score of candidate byte `d` over the sampled lines: the first
/// line's field count times the number of lines sharing it, or zero when
/// the first line has at most one field.
pub open spec fn score_of(lines: Seq<Seq<u8>>, d: u8) -> int {
    if lines.len() == 0 {
        0
    } else {
        let m = count_fields_spec(lines[0], d);
        if m <= 1 {
            0
        } else {
            consistency_upto(lines, d, m, lines.len() as int) * m
        }
    }
}

/// Fold over the remaining candidates, keeping the best-scoring one;
/// a later candidate wins only with a strictly greater score.
pub open spec fn best_from(lines: Seq<Seq<u8>>, cands: Seq<Delimiter>, best: Delimiter, bs: int) -> Delimiter
    decreases cands.len(),
{
    if cands.len() == 0 {
        best
    } else {
        let sc = score_of(lines, cands[0].spec_byte());
        if sc > bs {
            best_from(lines, cands.drop_first(), cands[0], sc)
        } else {
            best_from(lines, cands.drop_first(), best, bs)
        }
    }
}

/// The delimiter inferred from a byte buffer, judged on its first twenty
/// logical lines.
pub open spec fn detect_spec(data: Seq<u8>) -> Delimiter {
    let lines = sample_lines(data, 0, 20);
    if lines.len() == 0 {
        Delimiter::Comma
    } else {
        best_from(lines, delimiter_order(), Delimiter::Comma, 0)
    }
}

proof fn lemma_consistency_bound(lines: Seq<Seq<u8>>, d: u8, m: int, j: int)
    ensures
        0 <= consistency_upto(lines, d, m, j) <= if j <= 0 {
            0int
        } else {
            j
        },
    decreases j,
{
    if j > 0 {
        lemma_consistency_bound(lines, d, m, j - 1);
    }
}

/// Detect the delimiter by sampling the first lines of the file: for each
/// candidate, score the consistency of its per-line field counts, and keep
/// the best.
pub fn detect_delimiter(data: &[u8]) -> (r: Delimiter)
    requires
        data@.len() < usize::MAX,
    ensures
        r == detect_spec(data@),
{
    let sample = first_n_lines(data, 20);
    if sample.len() == 0 {
        return Delimiter::Comma;
    }
    proof {
        lemma_sample_lines_bounds(data@, 0, 20);
    }
    let ghost lines = sample.deep_view();
    let cands = Delimiter::all();
    let mut best = Delimiter::Comma;
    let mut best_score: u128 = 0;
    let mut k: usize = 0;
    proof {
        assert(delimiter_order().skip(0) =~= delimiter_order());
    }
    while k < cands.len()
        invariant
            cands@ == delimiter_order(),
            k <= cands@.len(),
            lines == sample.deep_view(),
            lines.len() > 0,
            sample@.len() == lines.len() <= 20,
            forall|t: int| 0 <= t < lines.len() ==> #[trigger] lines[t].len() < usize::MAX,
            best_score <= u64::MAX as u128 * 20,
            best_from(lines, delimiter_order(), Delimiter::Comma, 0) == best_from(
                lines,
                delimiter_order().skip(k as int),
                best,
                best_score as int,
            ),
        decreases cands@.len() - k,
    {
        let dl = cands[k];
        let d = dl.as_byte();
        let c0 = count_fields(sample[0].as_slice(), d);
        proof {
            assert(sample[0]@ == lines[0]);
            assert(delimiter_order().skip(k as int)[0] == delimiter_order()[k as int]);
            assert(delimiter_order().skip(k as int).drop_first() =~= delimiter_order().skip(
                k + 1 as int,
            ));
        }
        if c0 > 1 {
            let mut consistent: usize = 0;
            let mut j: usize = 0;
            while j < sample.len()
                invariant
                    j <= sample@.len(),
                    lines == sample.deep_view(),
                    sample@.len() == lines.len() <= 20,
                    forall|t: int| 0 <= t < lines.len() ==> #[trigger] lines[t].len() < usize::MAX,
                    consistent == consistency_upto(lines, d, c0 as int, j as int),
                    consistent <= j,
                decreases sample@.len() - j,
            {
                proof {
                    lemma_consistency_bound(lines, d, c0 as int, j + 1 as int);
                    assert(sample[j as int]@ == lines[j as int]);
                }
                if count_fields(sample[j].as_slice(), d) == c0 {
                    consistent = consistent + 1;
                }
                j = j + 1;
            }
            proof {
                assert(consistent as u128 * c0 as u128 <= 20 * (u64::MAX as u128)) by (nonlinear_arith)
                    requires
                        consistent <= 20,
                        c0 as u128 <= u64::MAX as u128,
                ;
            }
            let score: u128 = (consistent as u128) * (c0 as u128);
            proof {
                assert(score as int == consistency_upto(lines, d, c0 as int, lines.len() as int)
                    * count_fields_spec(lines[0], d));
            }
            if score > best_score {
                best = dl;
                best_score = score;
            }
        }
        k = k + 1;
    }
    proof {
        assert(delimiter_order().skip(cands@.len() as int) =~= Seq::<Delimiter>::empty());
    }
    best
}

/// `k` copies of one data row, each line-feed-terminated.
pub open spec fn rep_rows(row: Seq<u8>, k: nat) -> Seq<u8>
    decreases k,
{
    if k == 0 {
        Seq::empty()
    } else {
        row + seq![NEWLINE_BYTE] + rep_rows(row, (k - 1) as nat)
    }
}

/// A file made of one header line and `k` copies of one data row, each
/// line line-feed-terminated.
pub open spec fn repeat_file(header: Seq<u8>, row: Seq<u8>, k: nat) -> Seq<u8> {
    header + seq![NEWLINE_BYTE] + rep_rows(row, k)
}

/// `m` copies of one sampled line.
pub open spec fn repeat_lines(line: Seq<u8>, m: nat) -> Seq<Seq<u8>>
    decreases m,
{
    if m == 0 {
        Seq::empty()
    } else {
        seq![line] + repeat_lines(line, (m - 1) as nat)
    }
}

/// Scanning for a byte past a prefix that lacks it lands where scanning
/// the suffix alone would.
proof fn lemma_find_byte_shift(prefix: Seq<u8>, suffix: Seq<u8>, b: u8, j: int)
    requires
        0 <= j,
    ensures
        find_byte(prefix + suffix, b, prefix.len() + j) == prefix.len() + (if j
            <= suffix.len() {
            find_byte(suffix, b, j)
        } else {
            suffix.len() as int
        }),
    decreases suffix.len() - j,
{
    let data = prefix + suffix;
    if j >= suffix.len() {
    } else {
        assert(data[prefix.len() + j] == suffix[j]);
        if suffix[j] != b {
            lemma_find_byte_shift(prefix, suffix, b, j + 1);
        }
    }
}

/// Sampling lines past a prefix samples the suffix alone.
proof fn lemma_sample_shift(prefix: Seq<u8>, suffix: Seq<u8>, j: int, n: nat)
    requires
        0 <= j,
    ensures
        sample_lines(prefix + suffix, prefix.len() + j, n) == sample_lines(suffix, j, n),
    decreases n,
{
    let data = prefix + suffix;
    if n == 0 || j >= suffix.len() {
    } else {
        lemma_find_byte_shift(prefix, suffix, NEWLINE_BYTE, j);
        let e = find_byte(suffix, NEWLINE_BYTE, j);
        lemma_find_byte_range(suffix, NEWLINE_BYTE, j);
        assert(data.subrange(prefix.len() + j, prefix.len() + e) =~= suffix.subrange(j, e));
        assert(line_at(data, prefix.len() + j) == line_at(suffix, j));
        lemma_sample_shift(prefix, suffix, e + 1, (n - 1) as nat);
    }
}

/// Sampling a block of identical line-feed-terminated rows yields that
/// row's line, up to the sampling budget.
proof fn lemma_sample_rep_rows(row: Seq<u8>, k: nat, n: nat)
    requires
        forall|i: int| 0 <= i < row.len() ==> row[i] != NEWLINE_BYTE,
    ensures
        sample_lines(rep_rows(row, k), 0, n) == repeat_lines(
            strip_cr(row),
            if k < n {
                k
            } else {
                n
            },
        ),
    decreases k,
{
    let data = rep_rows(row, k);
    if k == 0 || n == 0 {
        assert(sample_lines(data, 0, n) =~= Seq::<Seq<u8>>::empty());
        assert(repeat_lines(strip_cr(row), 0) =~= Seq::<Seq<u8>>::empty());
    } else {
        let rest = rep_rows(row, (k - 1) as nat);
        let head = row + seq![NEWLINE_BYTE];
        assert(data == head + rest);
        assert(forall|i: int| 0 <= i < row.len() ==> #[trigger] data[i] == row[i]);
        assert(data[row.len() as int] == NEWLINE_BYTE);
        lemma_find_byte_range(data, NEWLINE_BYTE, 0);
        assert(find_byte(data, NEWLINE_BYTE, 0) == row.len()) by {
            let f = find_byte(data, NEWLINE_BYTE, 0);
            if f < row.len() {
                assert(data[f] == NEWLINE_BYTE);
            }
            if f > row.len() {
                assert(data[row.len() as int] != NEWLINE_BYTE);
            }
        }
        assert(data.subrange(0, row.len() as int) =~= row);
        assert(line_at(data, 0) == strip_cr(row));
        assert(data.len() > 0);
        assert(sample_lines(data, 0, n) == seq![strip_cr(row)] + sample_lines(
            data,
            row.len() + 1 as int,
            (n - 1) as nat,
        ));
        assert(head.len() == row.len() + 1);
        lemma_sample_shift(head, rest, 0, (n - 1) as nat);
        assert(sample_lines(data, row.len() + 1 as int, (n - 1) as nat) == sample_lines(
            rest,
            0,
            (n - 1) as nat,
        ));
        lemma_sample_rep_rows(row, (k - 1) as nat, (n - 1) as nat);
    }
}

/// What sampling sees of a header-plus-repeated-rows file: the header's
/// line, then the row's line as often as the budget allows.
pub proof fn lemma_sample_repeat_file(header: Seq<u8>, row: Seq<u8>, k: nat, n: nat)
    requires
        n >= 1,
        forall|i: int| 0 <= i < header.len() ==> header[i] != NEWLINE_BYTE,
        forall|i: int| 0 <= i < row.len() ==> row[i] != NEWLINE_BYTE,
    ensures
        sample_lines(repeat_file(header, row, k), 0, n) == seq![strip_cr(header)] + repeat_lines(
            strip_cr(row),
            if k < (n - 1) as nat {
                k
            } else {
                (n - 1) as nat
            },
        ),
{
    let data = repeat_file(header, row, k);
    let head = header + seq![NEWLINE_BYTE];
    let rest = rep_rows(row, k);
    assert(data == head + rest);
    assert(forall|i: int| 0 <= i < header.len() ==> #[trigger] data[i] == header[i]);
    assert(data[header.len() as int] == NEWLINE_BYTE);
    lemma_find_byte_range(data, NEWLINE_BYTE, 0);
    assert(find_byte(data, NEWLINE_BYTE, 0) == header.len()) by {
        let f = find_byte(data, NEWLINE_BYTE, 0);
        if f < header.len() {
            assert(data[f] == NEWLINE_BYTE);
        }
        if f > header.len() {
            assert(data[header.len() as int] != NEWLINE_BYTE);
        }
    }
    assert(data.subrange(0, header.len() as int) =~= header);
    assert(line_at(data, 0) == strip_cr(header));
    assert(data.len() > 0);
    assert(sample_lines(data, 0, n) == seq![line_at(data, 0)] + sample_lines(
        data,
        header.len() + 1 as int,
        (n - 1) as nat,
    ));
    assert(head.len() == header.len() + 1);
    lemma_sample_shift(head, rest, 0, (n - 1) as nat);
    lemma_sample_rep_rows(row, k, (n - 1) as nat);
}

proof fn lemma_count_fields_pos(line: Seq<u8>, d: u8)
    ensures
        count_fields_spec(line, d) >= 1,
{
    lemma_unquoted_delims_bound(line, d, line.len() as int);
}

proof fn lemma_repeat_lines_index(line: Seq<u8>, m: nat)
    ensures
        repeat_lines(line, m).len() == m,
        forall|i: int| 0 <= i < m ==> repeat_lines(line, m)[i] == line,
    decreases m,
{
    if m > 0 {
        lemma_repeat_lines_index(line, (m - 1) as nat);
    }
}

/// Consistency counting only reads the lines below the cut-off.
proof fn lemma_consistency_agree(
    lines1: Seq<Seq<u8>>,
    lines2: Seq<Seq<u8>>,
    d: u8,
    target: int,
    j: int,
)
    requires
        forall|t: int| 0 <= t < j ==> lines1[t] == lines2[t],
    ensures
        consistency_upto(lines1, d, target, j) == consistency_upto(lines2, d, target, j),
    decreases j,
{
    if j > 0 {
        lemma_consistency_agree(lines1, lines2, d, target, j - 1);
    }
}

/// Consistency over one header line plus `m` identical row lines.
proof fn lemma_consistency_repeat(h: Seq<u8>, r: Seq<u8>, m: nat, d: u8, target: int)
    ensures
        consistency_upto(seq![h] + repeat_lines(r, m), d, target, m + 1 as int) == (if count_fields_spec(
            h,
            d,
        ) == target {
            1int
        } else {
            0int
        }) + (if count_fields_spec(r, d) == target {
            m as int
        } else {
            0int
        }),
    decreases m,
{
    let lines = seq![h] + repeat_lines(r, m);
    lemma_repeat_lines_index(r, m);
    if m == 0 {
        assert(lines[0] == h);
        assert(consistency_upto(lines, d, target, 0) == 0);
        assert(consistency_upto(lines, d, target, 1) == (if count_fields_spec(lines[0], d)
            == target {
            1int
        } else {
            0int
        }));
    } else {
        let prev = seq![h] + repeat_lines(r, (m - 1) as nat);
        lemma_repeat_lines_index(r, (m - 1) as nat);
        assert(forall|t: int| 0 <= t < m as int ==> lines[t] == prev[t]);
        lemma_consistency_agree(lines, prev, d, target, m as int);
        lemma_consistency_repeat(h, r, (m - 1) as nat, d, target);
        assert(consistency_upto(prev, d, target, (m - 1) + 1 as int) == consistency_upto(
            prev,
            d,
            target,
            m as int,
        ));
        assert(lines[m as int] == r);
        assert(consistency_upto(lines, d, target, m + 1 as int) == consistency_upto(
            lines,
            d,
            target,
            m as int,
        ) + (if count_fields_spec(lines[m as int], d) == target {
            1int
        } else {
            0int
        }));
    }
}

/// A candidate's score over one header line plus `m` identical row
/// lines, written out: zero when the header shows at most one field,
/// the field count scaled by `1 + m` when the row agrees with the
/// header, and the bare field count otherwise.
pub open spec fn rep_score(c_header: int, c_row: int, m: int) -> int {
    if c_header <= 1 {
        0
    } else if c_row == c_header {
        c_header * (1 + m)
    } else {
        c_header
    }
}

proof fn lemma_score_repeat(h: Seq<u8>, r: Seq<u8>, m: nat, d: u8)
    ensures
        score_of(seq![h] + repeat_lines(r, m), d) == rep_score(
            count_fields_spec(h, d),
            count_fields_spec(r, d),
            m as int,
        ),
{
    let lines = seq![h] + repeat_lines(r, m);
    lemma_repeat_lines_index(r, m);
    assert(lines.len() == m + 1);
    assert(lines[0] == h);
    let ch = count_fields_spec(h, d);
    let cr = count_fields_spec(r, d);
    if ch > 1 {
        lemma_consistency_repeat(h, r, m, d, ch);
        assert(lines.len() as int == m + 1 as int);
        let cons = consistency_upto(lines, d, ch, lines.len() as int);
        assert(score_of(lines, d) == cons * ch);
        if cr == ch {
            assert(cons == 1 + m as int);
            assert((1 + m as int) * ch == ch * (1 + m as int)) by (nonlinear_arith);
        } else {
            assert(cons == 1);
        }
    }
}

/// `best_from` keeps its running winner when no remaining candidate
/// strictly beats the running score.
proof fn lemma_best_from_keeps(lines: Seq<Seq<u8>>, cands: Seq<Delimiter>, best: Delimiter, bs: int)
    requires
        forall|j: int| 0 <= j < cands.len() ==> score_of(lines, (#[trigger] cands[j]).spec_byte()) <= bs,
    ensures
        best_from(lines, cands, best, bs) == best,
    decreases cands.len(),
{
    if cands.len() > 0 {
        assert(forall|j: int|
            0 <= j < cands.drop_first().len() ==> cands.drop_first()[j] == cands[j + 1]);
        lemma_best_from_keeps(lines, cands.drop_first(), best, bs);
    }
}

/// `best_from` picks the candidate that strictly beats the running
/// score and everything before it, and is not strictly beaten later.
proof fn lemma_best_from_wins(
    lines: Seq<Seq<u8>>,
    cands: Seq<Delimiter>,
    best: Delimiter,
    bs: int,
    idx: int,
)
    requires
        0 <= idx < cands.len(),
        score_of(lines, cands[idx].spec_byte()) > bs,
        forall|j: int|
            0 <= j < idx ==> score_of(lines, (#[trigger] cands[j]).spec_byte()) < score_of(
                lines,
                cands[idx].spec_byte(),
            ),
        forall|j: int|
            idx < j < cands.len() ==> score_of(lines, (#[trigger] cands[j]).spec_byte())
                <= score_of(lines, cands[idx].spec_byte()),
    ensures
        best_from(lines, cands, best, bs) == cands[idx],
    decreases cands.len(),
{
    let sc0 = score_of(lines, cands[0].spec_byte());
    assert(forall|j: int|
        0 <= j < cands.drop_first().len() ==> cands.drop_first()[j] == cands[j + 1]);
    if idx == 0 {
        lemma_best_from_keeps(lines, cands.drop_first(), cands[0], sc0);
    } else {
        if sc0 > bs {
            lemma_best_from_wins(lines, cands.drop_first(), cands[0], sc0, idx - 1);
        } else {
            lemma_best_from_wins(lines, cands.drop_first(), best, bs, idx - 1);
        }
    }
}

/// Whether `cands[idx]` is the entry `best_from` settles on over a
/// starting score of `bs`: the first candidate with the top score,
/// counting only scores above `bs`.
pub open spec fn is_first_max(lines: Seq<Seq<u8>>, cands: Seq<Delimiter>, bs: int, idx: int) -> bool {
    &&& 0 <= idx < cands.len()
    &&& score_of(lines, cands[idx].spec_byte()) > bs
    &&& forall|j: int|
        0 <= j < idx ==> score_of(lines, (#[trigger] cands[j]).spec_byte()) < score_of(
            lines,
            cands[idx].spec_byte(),
        )
    &&& forall|j: int|
        idx < j < cands.len() ==> score_of(lines, (#[trigger] cands[j]).spec_byte()) <= score_of(
            lines,
            cands[idx].spec_byte(),
        )
}

/// What `best_from` returns: either no candidate beat the running
/// score and the running winner stands, or the first top-scoring
/// candidate won.
proof fn lemma_best_from_sound(lines: Seq<Seq<u8>>, cands: Seq<Delimiter>, best: Delimiter, bs: int)
    ensures
        ({
            let r = best_from(lines, cands, best, bs);
            (r == best && forall|j: int|
                0 <= j < cands.len() ==> score_of(lines, (#[trigger] cands[j]).spec_byte()) <= bs)
                || exists|idx: int| #[trigger] is_first_max(lines, cands, bs, idx) && r == cands[idx]
        }),
    decreases cands.len(),
{
    let r = best_from(lines, cands, best, bs);
    if cands.len() == 0 {
    } else {
        let rest = cands.drop_first();
        assert(forall|j: int| 0 <= j < rest.len() ==> rest[j] == cands[j + 1]);
        let sc0 = score_of(lines, cands[0].spec_byte());
        if sc0 > bs {
            lemma_best_from_sound(lines, rest, cands[0], sc0);
            let rr = best_from(lines, rest, cands[0], sc0);
            assert(r == rr);
            if rr == cands[0] && forall|j: int|
                0 <= j < rest.len() ==> score_of(lines, (#[trigger] rest[j]).spec_byte()) <= sc0 {
                assert forall|j: int| 0 < j < cands.len() implies score_of(
                    lines,
                    (#[trigger] cands[j]).spec_byte(),
                ) <= sc0 by {
                    assert(cands[j] == rest[j - 1]);
                    assert(score_of(lines, rest[j - 1].spec_byte()) <= sc0);
                }
                assert(is_first_max(lines, cands, bs, 0));
            } else {
                let idx0 = choose|idx: int|
                    #[trigger] is_first_max(lines, rest, sc0, idx) && rr == rest[idx];
                let top = score_of(lines, cands[idx0 + 1].spec_byte());
                assert(cands[idx0 + 1] == rest[idx0]);
                assert(top > sc0 > bs);
                assert forall|j: int| 0 <= j < idx0 + 1 implies score_of(
                    lines,
                    (#[trigger] cands[j]).spec_byte(),
                ) < top by {
                    if j > 0 {
                        assert(cands[j] == rest[j - 1]);
                        assert(score_of(lines, rest[j - 1].spec_byte()) < score_of(
                            lines,
                            rest[idx0].spec_byte(),
                        ));
                    }
                }
                assert forall|j: int| idx0 + 1 < j < cands.len() implies score_of(
                    lines,
                    (#[trigger] cands[j]).spec_byte(),
                ) <= top by {
                    assert(cands[j] == rest[j - 1]);
                    assert(score_of(lines, rest[j - 1].spec_byte()) <= score_of(
                        lines,
                        rest[idx0].spec_byte(),
                    ));
                }
                assert(is_first_max(lines, cands, bs, idx0 + 1));
            }
        } else {
            lemma_best_from_sound(lines, rest, best, bs);
            let rr = best_from(lines, rest, best, bs);
            assert(r == rr);
            if rr == best && forall|j: int|
                0 <= j < rest.len() ==> score_of(lines, (#[trigger] rest[j]).spec_byte()) <= bs {
                assert forall|j: int| 0 <= j < cands.len() implies score_of(
                    lines,
                    (#[trigger] cands[j]).spec_byte(),
                ) <= bs by {
                    if j > 0 {
                        assert(cands[j] == rest[j - 1]);
                        assert(score_of(lines, rest[j - 1].spec_byte()) <= bs);
                    }
                }
            } else {
                let idx0 = choose|idx: int|
                    #[trigger] is_first_max(lines, rest, bs, idx) && rr == rest[idx];
                let top = score_of(lines, cands[idx0 + 1].spec_byte());
                assert(cands[idx0 + 1] == rest[idx0]);
                assert(top > bs >= sc0);
                assert forall|j: int| 0 <= j < idx0 + 1 implies score_of(
                    lines,
                    (#[trigger] cands[j]).spec_byte(),
                ) < top by {
                    if j > 0 {
                        assert(cands[j] == rest[j - 1]);
                        assert(score_of(lines, rest[j - 1].spec_byte()) < score_of(
                            lines,
                            rest[idx0].spec_byte(),
                        ));
                    }
                }
                assert forall|j: int| idx0 + 1 < j < cands.len() implies score_of(
                    lines,
                    (#[trigger] cands[j]).spec_byte(),
                ) <= top by {
                    assert(cands[j] == rest[j - 1]);
                    assert(score_of(lines, rest[j - 1].spec_byte()) <= score_of(
                        lines,
                        rest[idx0].spec_byte(),
                    ));
                }
                assert(is_first_max(lines, cands, bs, idx0 + 1));
            }
        }
    }
}

/// Delimiter inference is stable: a file made of a header line and `k`
/// identical well-formed data rows (rows whose unquoted field count
/// under the inferred delimiter matches the header's) infers the same
/// delimiter after one more copy of the row is appended.
pub proof fn lemma_detect_stable(header: Seq<u8>, row: Seq<u8>, k: nat)
    requires
        k >= 1,
        forall|i: int| 0 <= i < header.len() ==> header[i] != NEWLINE_BYTE,
        forall|i: int| 0 <= i < row.len() ==> row[i] != NEWLINE_BYTE,
        count_fields_spec(
            strip_cr(header),
            detect_spec(repeat_file(header, row, k)).spec_byte(),
        ) == count_fields_spec(
            strip_cr(row),
            detect_spec(repeat_file(header, row, k)).spec_byte(),
        ),
    ensures
        detect_spec(repeat_file(header, row, k + 1)) == detect_spec(repeat_file(header, row, k)),
{
    let h = strip_cr(header);
    let r = strip_cr(row);
    let m1: nat = if k < 19 {
        k
    } else {
        19
    };
    let m2: nat = if k + 1 < 19 {
        k + 1
    } else {
        19
    };
    lemma_sample_repeat_file(header, row, k, 20);
    lemma_sample_repeat_file(header, row, k + 1, 20);
    let lines1 = seq![h] + repeat_lines(r, m1);
    let lines2 = seq![h] + repeat_lines(r, m2);
    lemma_repeat_lines_index(r, m1);
    lemma_repeat_lines_index(r, m2);
    assert(repeat_file(header, row, k).len() > 0);
    assert(repeat_file(header, row, k + 1).len() > 0);
    let order = delimiter_order();
    let d1 = detect_spec(repeat_file(header, row, k));
    assert(d1 == best_from(lines1, order, Delimiter::Comma, 0));
    assert(detect_spec(repeat_file(header, row, k + 1)) == best_from(
        lines2,
        order,
        Delimiter::Comma,
        0,
    ));
    assert forall|j: int| 0 <= j < order.len() implies {
        &&& #[trigger] score_of(lines1, order[j].spec_byte()) == rep_score(
            count_fields_spec(h, order[j].spec_byte()),
            count_fields_spec(r, order[j].spec_byte()),
            m1 as int,
        )
        &&& score_of(lines2, order[j].spec_byte()) == rep_score(
            count_fields_spec(h, order[j].spec_byte()),
            count_fields_spec(r, order[j].spec_byte()),
            m2 as int,
        )
        &&& count_fields_spec(h, order[j].spec_byte()) >= 1
    } by {
        lemma_score_repeat(h, r, m1, order[j].spec_byte());
        lemma_score_repeat(h, r, m2, order[j].spec_byte());
        lemma_count_fields_pos(h, order[j].spec_byte());
    }
    lemma_best_from_sound(lines1, order, Delimiter::Comma, 0);
    if d1 == Delimiter::Comma && forall|j: int|
        0 <= j < order.len() ==> score_of(lines1, (#[trigger] order[j]).spec_byte()) <= 0 {
        // Every candidate scored zero, which means every header count is
        // at most one; that does not change with one more row.
        assert forall|j: int| 0 <= j < order.len() implies score_of(
            lines2,
            (#[trigger] order[j]).spec_byte(),
        ) <= 0 by {
            let ch = count_fields_spec(h, order[j].spec_byte());
            let cr = count_fields_spec(r, order[j].spec_byte());
            if ch > 1 {
                assert(ch * (1 + m1 as int) >= ch) by (nonlinear_arith)
                    requires
                        ch >= 2,
                        m1 as int >= 0,
                ;
                assert(score_of(lines1, order[j].spec_byte()) > 0);
            }
        }
        lemma_best_from_keeps(lines2, order, Delimiter::Comma, 0);
    } else {
        let idx = choose|idx: int|
            #[trigger] is_first_max(lines1, order, 0, idx) && d1 == order[idx];
        let dw = order[idx].spec_byte();
        let ch = count_fields_spec(h, dw);
        let cr = count_fields_spec(r, dw);
        assert(d1 == order[idx]);
        assert(cr == ch);
        assert(score_of(lines1, dw) > 0);
        assert(ch > 1);
        let s1 = ch * (1 + m1 as int);
        let s2 = ch * (1 + m2 as int);
        assert(score_of(lines1, dw) == s1 && score_of(lines2, dw) == s2);
        assert(ch * (1 + m2 as int) >= ch * (1 + m1 as int) && ch * (1 + m1 as int) > 0)
            by (nonlinear_arith)
            requires
                ch >= 2,
                0 <= m1 as int <= m2 as int,
        ;
        assert forall|j: int| 0 <= j < idx implies score_of(
            lines2,
            (#[trigger] order[j]).spec_byte(),
        ) < s2 by {
            let chj = count_fields_spec(h, order[j].spec_byte());
            let crj = count_fields_spec(r, order[j].spec_byte());
            assert(score_of(lines1, order[j].spec_byte()) < s1);
            if chj <= 1 {
            } else if crj == chj {
                assert(chj * (1 + m1 as int) < ch * (1 + m1 as int) ==> chj < ch) by (nonlinear_arith)
                    requires
                        m1 as int >= 0,
                ;
                assert(chj < ch ==> chj * (1 + m2 as int) < ch * (1 + m2 as int)) by (nonlinear_arith)
                    requires
                        m2 as int >= 0,
                ;
            } else {
                assert(score_of(lines2, order[j].spec_byte()) == chj);
            }
        }
        assert forall|j: int| idx < j < order.len() implies score_of(
            lines2,
            (#[trigger] order[j]).spec_byte(),
        ) <= s2 by {
            let chj = count_fields_spec(h, order[j].spec_byte());
            let crj = count_fields_spec(r, order[j].spec_byte());
            assert(score_of(lines1, order[j].spec_byte()) <= s1);
            if chj <= 1 {
            } else if crj == chj {
                assert(chj * (1 + m1 as int) <= ch * (1 + m1 as int) ==> chj <= ch) by (nonlinear_arith)
                    requires
                        m1 as int >= 0,
                ;
                assert(chj <= ch ==> chj * (1 + m2 as int) <= ch * (1 + m2 as int)) by (nonlinear_arith)
                    requires
                        m2 as int >= 0,
                ;
            } else {
                assert(score_of(lines2, order[j].spec_byte()) == chj);
            }
        }
        lemma_best_from_wins(lines2, order, Delimiter::Comma, 0, idx);
    }
}

/// Where the row scanner stands within one logical line.
#[derive(Debug, Clone, Copy, PartialEq, Eq, Structural)]
pub enum ParseMode {
    /// At the start of a field.
    FieldStart,
    /// Inside an unquoted field.
    Unquoted,
    /// Inside a quoted field.
    Quoted,
    /// Inside a quoted field, just after a quote character.
    QuoteSeen,
}

/// The scanner's full state: finished fields, the field being built, and
/// the mode.
pub ghost struct ParseState {
    pub fields: Seq<Seq<char>>,
    pub cur: Seq<char>,
    pub mode: ParseMode,
}

/// The scanner's starting state.
pub open spec fn parse_init() -> ParseState {
    ParseState { fields: Seq::empty(), cur: Seq::empty(), mode: ParseMode::FieldStart }
}

/// One step of the row scanner on character `c` with delimiter `d`.
///
/// A field beginning with a quote is quoted: inside it, a doubled quote
/// stands for a literal quote, a quote followed by the delimiter closes
/// the field, and a quote followed by anything else falls back to an
/// unquoted continuation. Elsewhere the delimiter separates fields and
/// every character stands for itself.
pub open spec fn parse_step(st: ParseState, c: char, d: char) -> ParseState {
    match st.mode {
        ParseMode::FieldStart => {
            if c == '"' {
                ParseState { mode: ParseMode::Quoted, ..st }
            } else if c == d {
                ParseState {
                    fields: st.fields.push(st.cur),
                    cur: Seq::empty(),
                    mode: ParseMode::FieldStart,
                }
            } else {
                ParseState { cur: st.cur.push(c), mode: ParseMode::Unquoted, ..st }
            }
        },
        ParseMode::Unquoted => {
            if c == d {
                ParseState {
                    fields: st.fields.push(st.cur),
                    cur: Seq::empty(),
                    mode: ParseMode::FieldStart,
                }
            } else {
                ParseState { cur: st.cur.push(c), ..st }
            }
        },
        ParseMode::Quoted => {
            if c == '"' {
                ParseState { mode: ParseMode::QuoteSeen, ..st }
            } else {
                ParseState { cur: st.cur.push(c), ..st }
            }
        },
        ParseMode::QuoteSeen => {
            if c == '"' {
                ParseState { cur: st.cur.push('"'), mode: ParseMode::Quoted, ..st }
            } else if c == d {
                ParseState {
                    fields: st.fields.push(st.cur),
                    cur: Seq::empty(),
                    mode: ParseMode::FieldStart,
                }
            } else {
                ParseState { cur: st.cur.push(c), mode: ParseMode::Unquoted, ..st }
            }
        },
    }
}

/// Run the scanner over a whole character sequence.
pub open spec fn parse_run(s: Seq<char>, st: ParseState, d: char) -> ParseState
    decreases s.len(),
{
    if s.len() == 0 {
        st
    } else {
        parse_run(s.drop_first(), parse_step(st, s[0], d), d)
    }
}

/// Running the scanner over `s.push(c)` is running it over `s`, then
/// stepping once on `c`.
pub proof fn lemma_parse_run_snoc(s: Seq<char>, c: char, st: ParseState, d: char)
    ensures
        parse_run(s.push(c), st, d) == parse_step(parse_run(s, st, d), c, d),
    decreases s.len(),
{
    if s.len() == 0 {
        assert(s.push(c).drop_first() =~= Seq::<char>::empty());
        assert(s.push(c)[0] == c);
        assert(parse_run(Seq::<char>::empty(), parse_step(st, c, d), d) == parse_step(st, c, d));
    } else {
        assert(s.push(c).drop_first() =~= s.drop_first().push(c));
        lemma_parse_run_snoc(s.drop_first(), c, parse_step(st, s[0], d), d);
    }
}

/// Running the scanner over `a + b` is running it over `a`, then over `b`.
pub proof fn lemma_parse_run_concat(a: Seq<char>, b: Seq<char>, st: ParseState, d: char)
    ensures
        parse_run(a + b, st, d) == parse_run(b, parse_run(a, st, d), d),
    decreases a.len(),
{
    if a.len() == 0 {
        assert(a + b =~= b);
    } else {
        assert((a + b).drop_first() =~= a.drop_first() + b);
        lemma_parse_run_concat(a.drop_first(), b, parse_step(st, a[0], d), d);
    }
}

/// The fields of one logical line under delimiter `d`: an empty line has
/// no fields; otherwise the scanner runs over the line and the field under
/// construction is closed at the end.
pub open spec fn parse_fields(s: Seq<char>, d: char) -> Seq<Seq<char>> {
    if s.len() == 0 {
        Seq::empty()
    } else {
        let st = parse_run(s, parse_init(), d);
        st.fields.push(st.cur)
    }
}

/// Parse a raw line into fields, honoring double-quote regions.
///
/// Parsing itself cannot fail; the `Result` mirrors the engine boundary,
/// and every call returns `Ok`.
pub fn parse_row(line: &str, delimiter: u8) -> (r: Result<Vec<String>, MassiveCsvError>)
    ensures
        r matches Ok(v) && v.deep_view() == parse_fields(line@, delimiter as char),
{
    let chars = str_to_chars(line);
    let n = chars.len();
    if n == 0 {
        let empty: Vec<String> = Vec::new();
        proof {
            assert(empty.deep_view() =~~= parse_fields(line@, delimiter as char));
        }
        return Result::Ok(empty);
    }
    let d = delimiter as char;
    let mut fields: Vec<String> = Vec::new();
    let mut cur: Vec<char> = Vec::new();
    let mut mode = ParseMode::FieldStart;
    let mut i: usize = 0;
    proof {
        assert(line@.subrange(0, 0) =~= Seq::<char>::empty());
        assert(fields.deep_view() =~~= Seq::<Seq<char>>::empty());
    }
    while i < n
        invariant
            chars@ == line@,
            n == chars@.len(),
            i <= n,
            d == delimiter as char,
            parse_run(line@.subrange(0, i as int), parse_init(), d) == (ParseState {
                fields: fields.deep_view(),
                cur: cur@,
                mode: mode,
            }),
        decreases n - i,
    {
        let ghost st_pre = parse_run(line@.subrange(0, i as int), parse_init(), d);
        proof {
            assert(line@.subrange(0, i + 1 as int) =~= line@.subrange(0, i as int).push(
                line@[i as int],
            ));
            lemma_parse_run_snoc(line@.subrange(0, i as int), line@[i as int], parse_init(), d);
        }
        let c = chars[i];
        let ghost fields_pre = fields.deep_view();
        let ghost cur_pre = cur@;
        match mode {
            ParseMode::FieldStart => {
                if c == '"' {
                    mode = ParseMode::Quoted;
                } else if c == d {
                    let done = string_from_chars(&cur);
                    fields.push(done);
                    cur.clear();
                    mode = ParseMode::FieldStart;
                } else {
                    cur.push(c);
                    mode = ParseMode::Unquoted;
                }
            },
            ParseMode::Unquoted => {
                if c == d {
                    let done = string_from_chars(&cur);
                    fields.push(done);
                    cur.clear();
                    mode = ParseMode::FieldStart;
                } else {
                    cur.push(c);
                }
            },
            ParseMode::Quoted => {
                if c == '"' {
                    mode = ParseMode::QuoteSeen;
                } else {
                    cur.push(c);
                }
            },
            ParseMode::QuoteSeen => {
                if c == '"' {
                    cur.push('"');
                    mode = ParseMode::Quoted;
                } else if c == d {
                    let done = string_from_chars(&cur);
                    fields.push(done);
                    cur.clear();
                    mode = ParseMode::FieldStart;
                } else {
                    cur.push(c);
                    mode = ParseMode::Unquoted;
                }
            },
        }
        proof {
            assert(fields.deep_view() =~~= parse_step(st_pre, line@[i as int], d).fields);
            assert(cur@ =~= parse_step(st_pre, line@[i as int], d).cur);
        }
        i = i + 1;
    }
    proof {
        assert(line@.subrange(0, n as int) =~= line@);
    }
    let done = string_from_chars(&cur);
    let ghost fields_pre = fields.deep_view();
    fields.push(done);
    proof {
        assert(fields.deep_view() =~~= fields_pre.push(cur@));
    }
    Result::Ok(fields)
}

/// True when the character forces a field to be quoted: the delimiter
/// itself, a quote, or a line terminator.
pub open spec fn forces_quote(c: char, d: char) -> bool {
    c == d || c == '"' || c == '\n' || c == '\r'
}

/// True when serializing the field requires surrounding quotes.
pub open spec fn needs_quote(f: Seq<char>, d: char) -> bool {
    exists|i: int| 0 <= i < f.len() && forces_quote(f[i], d)
}

/// The field's characters with every quote doubled.
pub open spec fn escape_quotes(f: Seq<char>) -> Seq<char>
    decreases f.len(),
{
    if f.len() == 0 {
        Seq::empty()
    } else {
        (if f[0] == '"' {
            seq!['"', '"']
        } else {
            seq![f[0]]
        }) + escape_quotes(f.drop_first())
    }
}

/// Escaping distributes over `push`.
pub proof fn lemma_escape_quotes_snoc(f: Seq<char>, c: char)
    ensures
        escape_quotes(f.push(c)) == escape_quotes(f) + (if c == '"' {
            seq!['"', '"']
        } else {
            seq![c]
        }),
    decreases f.len(),
{
    let tail: Seq<char> = if c == '"' {
        seq!['"', '"']
    } else {
        seq![c]
    };
    if f.len() == 0 {
        assert(f.push(c).drop_first() =~= Seq::<char>::empty());
        assert(f.push(c)[0] == c);
        assert(escape_quotes(Seq::<char>::empty()) =~= Seq::<char>::empty());
        assert(escape_quotes(f.push(c)) =~= tail + Seq::<char>::empty());
        assert(tail + Seq::<char>::empty() =~= tail);
        assert(escape_quotes(f) + tail =~= tail);
    } else {
        assert(f.push(c).drop_first() =~= f.drop_first().push(c));
        lemma_escape_quotes_snoc(f.drop_first(), c);
        assert(escape_quotes(f.push(c)) =~= escape_quotes(f) + tail);
    }
}

/// One serialized field: quoted with doubled quotes when needed, verbatim
/// otherwise.
pub open spec fn ser_field(f: Seq<char>, d: char) -> Seq<char> {
    if needs_quote(f, d) {
        seq!['"'] + escape_quotes(f) + seq!['"']
    } else {
        f
    }
}

/// A serialized row: the fields, each serialized, joined by the delimiter.
pub open spec fn ser_fields(fs: Seq<Seq<char>>, d: char) -> Seq<char>
    decreases fs.len(),
{
    if fs.len() == 0 {
        Seq::empty()
    } else if fs.len() == 1 {
        ser_field(fs[0], d)
    } else {
        ser_field(fs[0], d) + seq![d] + ser_fields(fs.drop_first(), d)
    }
}

/// Serialization distributes over `push` once a row has a field.
pub proof fn lemma_ser_fields_snoc(fs: Seq<Seq<char>>, f: Seq<char>, d: char)
    requires
        fs.len() >= 1,
    ensures
        ser_fields(fs.push(f), d) == ser_fields(fs, d) + seq![d] + ser_field(f, d),
    decreases fs.len(),
{
    if fs.len() == 1 {
        assert(fs.push(f).drop_first() =~= seq![f]);
        assert(fs.push(f)[0] == fs[0]);
        assert(ser_fields(seq![f], d) == ser_field(f, d));
        assert(ser_fields(fs, d) == ser_field(fs[0], d));
        assert(ser_fields(fs.push(f), d) =~= ser_fields(fs, d) + seq![d] + ser_field(f, d));
    } else {
        assert(fs.push(f).drop_first() =~= fs.drop_first().push(f));
        lemma_ser_fields_snoc(fs.drop_first(), f, d);
        assert(ser_fields(fs.push(f), d) =~= ser_fields(fs, d) + seq![d] + ser_field(f, d));
    }
}

/// Decide whether a field must be quoted when serialized.
fn field_needs_quote(f: &Vec<char>, d: char) -> (r: bool)
    ensures
        r == needs_quote(f@, d),
{
    let n = f.len();
    let mut i: usize = 0;
    while i < n
        invariant
            i <= n,
            n == f@.len(),
            forall|k: int| 0 <= k < i ==> !forces_quote(f@[k], d),
        decreases n - i,
    {
        let c = f[i];
        if c == d || c == '"' || c == '\n' || c == '\r' {
            return true;
        }
        i = i + 1;
    }
    false
}

/// Serialize fields back into one CSV line, quoting where required. The
/// result carries no trailing newline.
pub fn serialize_row(fields: &Vec<String>, delimiter: u8) -> (r: String)
    ensures
        r@ == ser_fields(fields.deep_view(), delimiter as char),
{
    let d = delimiter as char;
    let mut out: Vec<char> = Vec::new();
    let n = fields.len();
    let mut idx: usize = 0;
    while idx < n
        invariant
            idx <= n,
            n == fields@.len(),
            d == delimiter as char,
            out@ == ser_fields(fields.deep_view().subrange(0, idx as int), d),
        decreases n - idx,
    {
        let fc = str_to_chars(fields[idx].as_str());
        proof {
            assert(fc@ == fields.deep_view()[idx as int]);
        }
        if idx > 0 {
            out.push(d);
        }
        let ghost base = out@;
        if field_needs_quote(&fc, d) {
            out.push('"');
            let m = fc.len();
            let mut j: usize = 0;
            while j < m
                invariant
                    j <= m,
                    m == fc@.len(),
                    out@ == base + seq!['"'] + escape_quotes(fc@.subrange(0, j as int)),
                decreases m - j,
            {
                let ghost esc_pre = escape_quotes(fc@.subrange(0, j as int));
                proof {
                    assert(fc@.subrange(0, j + 1 as int) =~= fc@.subrange(0, j as int).push(
                        fc@[j as int],
                    ));
                    lemma_escape_quotes_snoc(fc@.subrange(0, j as int), fc@[j as int]);
                }
                let c = fc[j];
                if c == '"' {
                    out.push('"');
                    out.push('"');
                } else {
                    out.push(c);
                }
                proof {
                    assert(out@ =~= base + seq!['"'] + escape_quotes(
                        fc@.subrange(0, j + 1 as int),
                    ));
                }
                j = j + 1;
            }
            out.push('"');
            proof {
                assert(fc@.subrange(0, m as int) =~= fc@);
                assert(out@ =~= base + ser_field(fc@, d));
            }
        } else {
            let m = fc.len();
            let mut j: usize = 0;
            while j < m
                invariant
                    j <= m,
                    m == fc@.len(),
                    out@ == base + fc@.subrange(0, j as int),
                decreases m - j,
            {
                let c = fc[j];
                out.push(c);
                proof {
                    assert(fc@.subrange(0, j + 1 as int) =~= fc@.subrange(0, j as int).push(
                        fc@[j as int],
                    ));
                    assert(out@ =~= base + fc@.subrange(0, j + 1 as int));
                }
                j = j + 1;
            }
            proof {
                assert(fc@.subrange(0, m as int) =~= fc@);
                assert(out@ =~= base + ser_field(fc@, d));
            }
        }
        proof {
            let fs = fields.deep_view();
            if idx == 0 {
                assert(fs.subrange(0, 1) =~= seq![fs[0]]);
                assert(out@ =~= ser_fields(fs.subrange(0, idx + 1 as int), d));
            } else {
                assert(fs.subrange(0, idx as int).push(fs[idx as int]) =~= fs.subrange(
                    0,
                    idx + 1 as int,
                ));
                lemma_ser_fields_snoc(fs.subrange(0, idx as int), fs[idx as int], d);
                assert(out@ =~= ser_fields(fs.subrange(0, idx + 1 as int), d));
            }
        }
        idx = idx + 1;
    }
    proof {
        assert(fields.deep_view().subrange(0, n as int) =~= fields.deep_view());
    }
    string_from_chars(&out)
}

/// Parse the first logical line of the buffer as the header row.
pub fn parse_headers(data: &[u8], delimiter: u8) -> (r: Result<Vec<String>, MassiveCsvError>)
    ensures
        data@.len() == 0 ==> r matches Err(MassiveCsvError::EmptyFile),
        data@.len() > 0 && valid_utf8(line_at(data@, 0)) ==> (r matches Ok(v) && v.deep_view()
            == parse_fields(decode_utf8(line_at(data@, 0)), delimiter as char)),
        data@.len() > 0 && !valid_utf8(line_at(data@, 0)) ==> (r matches Err(
            MassiveCsvError::InvalidUtf8(p),
        ) && p == 0),
{
    match first_line(data) {
        Option::None => Result::Err(MassiveCsvError::EmptyFile),
        Option::Some(line) => {
            match bytes_to_string(line.as_slice()) {
                Option::None => Result::Err(MassiveCsvError::InvalidUtf8(0)),
                Option::Some(s) => parse_row(s.as_str(), delimiter),
            }
        },
    }
}

/// Running the scanner over a single character is one step.
proof fn lemma_run_one(c: char, st: ParseState, d: char)
    ensures
        parse_run(seq![c], st, d) == parse_step(st, c, d),
{
    assert(seq![c].drop_first() =~= Seq::<char>::empty());
    assert(seq![c][0] == c);
    let x = parse_step(st, c, d);
    assert(parse_run(Seq::<char>::empty(), x, d) == x);
}

/// Running the scanner over two characters is two steps.
proof fn lemma_run_two(c1: char, c2: char, st: ParseState, d: char)
    ensures
        parse_run(seq![c1, c2], st, d) == parse_step(parse_step(st, c1, d), c2, d),
{
    assert(seq![c1, c2] =~= seq![c1] + seq![c2]);
    lemma_parse_run_concat(seq![c1], seq![c2], st, d);
    lemma_run_one(c1, st, d);
    lemma_run_one(c2, parse_step(st, c1, d), d);
}

/// Scanning an all-literal continuation extends the unquoted field.
proof fn lemma_run_unquoted(f: Seq<char>, st: ParseState, d: char)
    requires
        st.mode == ParseMode::Unquoted,
        forall|i: int| 0 <= i < f.len() ==> f[i] != d,
    ensures
        parse_run(f, st, d) == (ParseState { fields: st.fields, cur: st.cur + f, mode: ParseMode::Unquoted }),
    decreases f.len(),
{
    if f.len() == 0 {
        assert(st.cur + f =~= st.cur);
    } else {
        let st1 = parse_step(st, f[0], d);
        assert(st1 == (ParseState {
            fields: st.fields,
            cur: st.cur.push(f[0]),
            mode: ParseMode::Unquoted,
        }));
        lemma_run_unquoted(f.drop_first(), st1, d);
        assert(st.cur.push(f[0]) + f.drop_first() =~= st.cur + f);
    }
}

/// Scanning the escaped form of `f` inside quotes appends `f` to the
/// field under construction.
proof fn lemma_run_quoted(f: Seq<char>, st: ParseState, d: char)
    requires
        st.mode == ParseMode::Quoted,
    ensures
        parse_run(escape_quotes(f), st, d) == (ParseState { fields: st.fields, cur: st.cur + f, mode: ParseMode::Quoted }),
    decreases f.len(),
{
    if f.len() == 0 {
        assert(escape_quotes(f) =~= Seq::<char>::empty());
        assert(st.cur + f =~= st.cur);
    } else {
        let head: Seq<char> = if f[0] == '"' {
            seq!['"', '"']
        } else {
            seq![f[0]]
        };
        let rest = escape_quotes(f.drop_first());
        assert(escape_quotes(f) == head + rest);
        let st1 = ParseState { fields: st.fields, cur: st.cur.push(f[0]), mode: ParseMode::Quoted };
        assert(parse_run(head, st, d) == st1) by {
            if f[0] == '"' {
                lemma_run_two('"', '"', st, d);
            } else {
                lemma_run_one(f[0], st, d);
            }
        }
        lemma_parse_run_concat(head, rest, st, d);
        lemma_run_quoted(f.drop_first(), st1, d);
        assert(st.cur.push(f[0]) + f.drop_first() =~= st.cur + f);
    }
}

/// Scanning one serialized field from a field start rebuilds exactly that
/// field, and a following delimiter closes it.
proof fn lemma_run_ser_field(f: Seq<char>, st: ParseState, d: char)
    requires
        st.mode == ParseMode::FieldStart,
        st.cur == Seq::<char>::empty(),
        d != '"',
    ensures
        parse_run(ser_field(f, d), st, d).fields == st.fields,
        parse_run(ser_field(f, d), st, d).cur == f,
        parse_step(parse_run(ser_field(f, d), st, d), d, d) == (ParseState {
            fields: st.fields.push(f),
            cur: Seq::<char>::empty(),
            mode: ParseMode::FieldStart,
        }),
{
    if needs_quote(f, d) {
        let open = seq!['"'];
        let esc = escape_quotes(f);
        let close = seq!['"'];
        assert(ser_field(f, d) == open + esc + close);
        let st1 = ParseState { fields: st.fields, cur: st.cur, mode: ParseMode::Quoted };
        assert(parse_run(open, st, d) == st1) by {
            lemma_run_one('"', st, d);
        }
        lemma_parse_run_concat(open, esc, st, d);
        lemma_run_quoted(f, st1, d);
        let st2 = ParseState { fields: st.fields, cur: f, mode: ParseMode::Quoted };
        assert(st.cur + f =~= f);
        lemma_parse_run_concat(open + esc, close, st, d);
        assert((open + esc) + close =~= ser_field(f, d));
        let st3 = ParseState { fields: st.fields, cur: f, mode: ParseMode::QuoteSeen };
        assert(parse_run(close, st2, d) == st3) by {
            lemma_run_one('"', st2, d);
        }
        assert(parse_run(ser_field(f, d), st, d) == st3);
    } else {
        assert(ser_field(f, d) == f);
        if f.len() == 0 {
            assert(f =~= Seq::<char>::empty());
            assert(parse_run(f, st, d) == st);
        } else {
            assert(!forces_quote(f[0], d));
            let st1 = ParseState {
                fields: st.fields,
                cur: st.cur.push(f[0]),
                mode: ParseMode::Unquoted,
            };
            assert(parse_step(st, f[0], d) == st1);
            assert(forall|i: int|
                0 <= i < f.drop_first().len() ==> #[trigger] f.drop_first()[i] != d) by {
                assert(forall|i: int|
                    0 <= i < f.drop_first().len() ==> f.drop_first()[i] == f[i + 1]
                        && !forces_quote(f[i + 1], d));
            }
            lemma_run_unquoted(f.drop_first(), st1, d);
            assert(st.cur.push(f[0]) + f.drop_first() =~= f);
        }
    }
}

/// Scanning a serialized row from a field start appends exactly its
/// fields once the trailing field is closed.
proof fn lemma_run_ser_fields(fs: Seq<Seq<char>>, st: ParseState, d: char)
    requires
        st.mode == ParseMode::FieldStart,
        st.cur == Seq::<char>::empty(),
        d != '"',
        fs.len() >= 1,
    ensures
        ({
            let e = parse_run(ser_fields(fs, d), st, d);
            e.fields.push(e.cur) == st.fields + fs
        }),
    decreases fs.len(),
{
    if fs.len() == 1 {
        assert(ser_fields(fs, d) == ser_field(fs[0], d));
        lemma_run_ser_field(fs[0], st, d);
        assert(st.fields.push(fs[0]) =~= st.fields + fs);
    } else {
        let first = ser_field(fs[0], d);
        let sep = seq![d];
        let rest = ser_fields(fs.drop_first(), d);
        assert(ser_fields(fs, d) == first + sep + rest);
        lemma_run_ser_field(fs[0], st, d);
        let e1 = parse_run(first, st, d);
        let st2 = ParseState {
            fields: st.fields.push(fs[0]),
            cur: Seq::<char>::empty(),
            mode: ParseMode::FieldStart,
        };
        assert(parse_run(sep, e1, d) == st2) by {
            lemma_run_one(d, e1, d);
        }
        lemma_parse_run_concat(first, sep, st, d);
        lemma_parse_run_concat(first + sep, rest, st, d);
        assert((first + sep) + rest =~= ser_fields(fs, d));
        lemma_run_ser_fields(fs.drop_first(), st2, d);
        let e = parse_run(rest, st2, d);
        assert(e.fields.push(e.cur) == st2.fields + fs.drop_first());
        assert(st.fields.push(fs[0]) + fs.drop_first() =~= st.fields + fs);
        assert(parse_run(ser_fields(fs, d), st, d) == e);
    }
}

/// A serialized field is never empty unless the field itself is.
proof fn lemma_ser_field_len(f: Seq<char>, d: char)
    ensures
        f.len() > 0 ==> ser_field(f, d).len() > 0,
{
}

/// Parse inverts serialize: for any field sequence (except the lone empty
/// field, whose serialized form is the empty line) and any delimiter
/// other than the quote character, parsing the serialized row yields the
/// fields back unchanged.
pub proof fn lemma_parse_serialize_round_trip(fs: Seq<Seq<char>>, d: char)
    requires
        d != '"',
        !(fs.len() == 1 && fs[0].len() == 0),
    ensures
        parse_fields(ser_fields(fs, d), d) == fs,
{
    let s = ser_fields(fs, d);
    if fs.len() == 0 {
        assert(s.len() == 0);
        assert(parse_fields(s, d) =~= fs);
    } else {
        assert(s.len() > 0) by {
            if fs.len() == 1 {
                lemma_ser_field_len(fs[0], d);
            } else {
                assert(s == ser_field(fs[0], d) + seq![d] + ser_fields(fs.drop_first(), d));
            }
        }
        lemma_run_ser_fields(fs, parse_init(), d);
        let e = parse_run(s, parse_init(), d);
        assert(e.fields.push(e.cur) == parse_init().fields + fs);
        assert(Seq::<Seq<char>>::empty() + fs =~= fs);
    }
}

} // verus!
