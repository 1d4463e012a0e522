//! Full-text search over the reader's rows: a raw-text pre-filter, an
//! optional column restriction, and a result cap, with results in
//! ascending row order.

use vstd::prelude::*;
use vstd::utf8::decode_utf8;
use vstd::utf8::valid_utf8;

use crate::error::MassiveCsvError;
use crate::parser::parse_fields;
use crate::parser::parse_row;
use crate::reader::CsvReader;
use crate::text::lower_of;
use crate::text::lowercase;
use crate::text::str_to_chars;

verus! {

/// A single search result: the matching row's index and its parsed
/// fields.
#[derive(Debug, Clone)]
pub struct SearchResult {
    pub row_num: usize,
    pub fields: Vec<String>,
}

/// Options controlling how search is performed.
#[derive(Debug, Clone)]
pub struct SearchOptions {
    /// If set, only count matches within this column.
    pub column: Option<String>,
    /// Case-insensitive matching.
    pub case_insensitive: bool,
    /// Keep only the first matches found (0 means unlimited).
    pub max_results: usize,
}

impl Default for SearchOptions {
    /// No column restriction, case-sensitive, unlimited results.
    fn default() -> (r: SearchOptions)
        ensures
            r.column is None,
            r.case_insensitive == false,
            r.max_results == 0,
    {
        SearchOptions { column: Option::None, case_insensitive: false, max_results: 0 }
    }
}

/// Contiguous-substring containment over character sequences.
pub open spec fn contains_seq(hay: Seq<char>, needle: Seq<char>) -> bool {
    exists|i: int|
        0 <= i && i + needle.len() <= hay.len() && #[trigger] hay.subrange(i, i + needle.len())
            == needle
}

/// The substring test the search applies to a piece of text: folded to
/// lower case first when the search is case-insensitive.
pub open spec fn text_matches(text: Seq<char>, q: Seq<char>, ci: bool) -> bool {
    if ci {
        contains_seq(lower_of(text), lower_of(q))
    } else {
        contains_seq(text, q)
    }
}

/// Index of the first header equal to `name`, or the header count when
/// there is none.
pub open spec fn find_col(headers: Seq<Seq<char>>, name: Seq<char>) -> int
    decreases headers.len(),
{
    if headers.len() == 0 {
        0
    } else if headers[0] == name {
        0
    } else {
        1 + find_col(headers.drop_first(), name)
    }
}

/// `find_col` names the first occurrence, or the length when absent.
pub proof fn lemma_find_col(headers: Seq<Seq<char>>, name: Seq<char>)
    ensures
        0 <= find_col(headers, name) <= headers.len(),
        find_col(headers, name) < headers.len() ==> headers[find_col(headers, name)] == name,
        forall|k: int| 0 <= k < find_col(headers, name) ==> headers[k] != name,
    decreases headers.len(),
{
    if headers.len() > 0 && headers[0] != name {
        lemma_find_col(headers.drop_first(), name);
        assert(forall|k: int|
            1 <= k < find_col(headers, name) ==> headers[k] == headers.drop_first()[k - 1]);
    }
}

/// What the scan does with row `i`: `None` when the row is skipped
/// (undecodable, no raw-text hit, or no hit in the restricted column),
/// otherwise its parsed fields.
pub open spec fn row_match(rd: CsvReader, i: int, q: Seq<char>, ci: bool, col: Option<int>) -> Option<
    Seq<Seq<char>>,
> {
    let b = rd.row_text(i);
    if !valid_utf8(b) {
        Option::None
    } else {
        let s = decode_utf8(b);
        if !text_matches(s, q, ci) {
            Option::None
        } else {
            let fields = parse_fields(s, rd.delimiter as char);
            match col {
                Option::Some(c) => {
                    if 0 <= c < fields.len() && text_matches(fields[c], q, ci) {
                        Option::Some(fields)
                    } else {
                        Option::None
                    }
                },
                Option::None => Option::Some(fields),
            }
        }
    }
}

/// The results of scanning rows `[0, n)`, in row order.
pub open spec fn results_upto(
    rd: CsvReader,
    q: Seq<char>,
    ci: bool,
    col: Option<int>,
    n: int,
) -> Seq<(int, Seq<Seq<char>>)>
    decreases n,
{
    if n <= 0 {
        Seq::empty()
    } else {
        results_upto(rd, q, ci, col, n - 1) + (match row_match(rd, n - 1, q, ci, col) {
            Option::Some(f) => seq![(n - 1, f)],
            Option::None => Seq::empty(),
        })
    }
}

/// The full search outcome: every matching row in order, truncated to
/// `max` entries when `max` is positive.
pub open spec fn search_spec(
    rd: CsvReader,
    q: Seq<char>,
    ci: bool,
    col: Option<int>,
    max: int,
) -> Seq<(int, Seq<Seq<char>>)> {
    let all = results_upto(rd, q, ci, col, rd.spec_row_count());
    if max > 0 && all.len() > max {
        all.take(max)
    } else {
        all
    }
}

/// The column restriction the options name, resolved against headers.
pub open spec fn resolved_col(headers: Seq<Seq<char>>, column: Option<String>) -> Option<int> {
    match column {
        Option::Some(c) => Option::Some(find_col(headers, c@)),
        Option::None => Option::None,
    }
}

/// Element-wise agreement between returned results and their
/// specification.
pub open spec fn results_agree(v: Seq<SearchResult>, s: Seq<(int, Seq<Seq<char>>)>) -> bool {
    &&& v.len() == s.len()
    &&& forall|k: int|
        0 <= k < v.len() ==> (#[trigger] v[k].row_num) as int == s[k].0 && v[k].fields.deep_view()
            == s[k].1
}

/// Each result of scanning `[0, n)` records a row below `n` whose scan
/// outcome it is, and results come in strictly increasing row order.
pub proof fn lemma_results_upto_props(rd: CsvReader, q: Seq<char>, ci: bool, col: Option<int>, n: int)
    ensures
        forall|k: int|
            0 <= k < results_upto(rd, q, ci, col, n).len() ==> 0 <= (#[trigger] results_upto(
                rd,
                q,
                ci,
                col,
                n,
            )[k]).0 < n && row_match(rd, results_upto(rd, q, ci, col, n)[k].0, q, ci, col)
                == Option::Some(results_upto(rd, q, ci, col, n)[k].1),
        forall|j: int, k: int|
            0 <= j < k < results_upto(rd, q, ci, col, n).len() ==> (#[trigger] results_upto(
                rd,
                q,
                ci,
                col,
                n,
            )[j]).0 < (#[trigger] results_upto(rd, q, ci, col, n)[k]).0,
    decreases n,
{
    if n > 0 {
        lemma_results_upto_props(rd, q, ci, col, n - 1);
    }
}

/// A row that the scan keeps appears in the scan of any longer prefix,
/// at the position given by the number of kept rows before it.
pub proof fn lemma_results_upto_member(
    rd: CsvReader,
    q: Seq<char>,
    ci: bool,
    col: Option<int>,
    n: int,
    i: int,
    f: Seq<Seq<char>>,
)
    requires
        0 <= i < n,
        row_match(rd, i, q, ci, col) == Option::Some(f),
    ensures
        results_upto(rd, q, ci, col, n).len() > results_upto(rd, q, ci, col, i).len(),
        results_upto(rd, q, ci, col, n)[results_upto(rd, q, ci, col, i).len() as int] == (i, f),
    decreases n,
{
    if n == i + 1 {
        assert(results_upto(rd, q, ci, col, n) == results_upto(rd, q, ci, col, i) + seq![(i, f)]);
    } else {
        lemma_results_upto_member(rd, q, ci, col, n - 1, i, f);
    }
}

/// Search result ordering: any two entries of a search outcome stand in
/// strictly increasing row order.
pub proof fn lemma_search_ordering(rd: CsvReader, q: Seq<char>, ci: bool, col: Option<int>, max: int)
    ensures
        forall|j: int, k: int|
            0 <= j < k < search_spec(rd, q, ci, col, max).len() ==> (#[trigger] search_spec(
                rd,
                q,
                ci,
                col,
                max,
            )[j]).0 < (#[trigger] search_spec(rd, q, ci, col, max)[k]).0,
{
    lemma_results_upto_props(rd, q, ci, col, rd.spec_row_count());
}

/// Search completeness: a row the scan keeps appears in the search
/// outcome, unless the result cap cuts it off; its position is the
/// number of kept rows before it.
pub proof fn lemma_search_complete(
    rd: CsvReader,
    q: Seq<char>,
    ci: bool,
    col: Option<int>,
    max: int,
    i: int,
    f: Seq<Seq<char>>,
)
    requires
        0 <= i < rd.spec_row_count(),
        row_match(rd, i, q, ci, col) == Option::Some(f),
        max == 0 || results_upto(rd, q, ci, col, i).len() < max,
    ensures
        ({
            let s = search_spec(rd, q, ci, col, max);
            let pos = results_upto(rd, q, ci, col, i).len() as int;
            0 <= pos < s.len() && s[pos] == (i, f)
        }),
{
    lemma_results_upto_member(rd, q, ci, col, rd.spec_row_count(), i, f);
}

/// Decide contiguous-substring containment by scanning every window.
pub fn contains_chars(hay: &Vec<char>, needle: &Vec<char>) -> (r: bool)
    ensures
        r == contains_seq(hay@, needle@),
{
    let n = needle.len();
    let h = hay.len();
    if n > h {
        return false;
    }
    let mut i: usize = 0;
    while i <= h - n
        invariant
            n <= h,
            n == needle@.len(),
            h == hay@.len(),
            i <= h - n + 1,
            forall|p: int| 0 <= p < i ==> #[trigger] hay@.subrange(p, p + n) != needle@,
        decreases h + 1 - n - i,
    {
        let mut j: usize = 0;
        let mut eq = true;
        while j < n
            invariant
                j <= n,
                i + n <= h,
                n == needle@.len(),
                h == hay@.len(),
                eq == (forall|t: int| 0 <= t < j ==> hay@[i + t] == needle@[t]),
            decreases n - j,
        {
            if hay[i + j] != needle[j] {
                eq = false;
                proof {
                    assert(hay@[i + j as int] != needle@[j as int]);
                }
            }
            j = j + 1;
        }
        if eq {
            proof {
                assert(hay@.subrange(i as int, i + n) =~= needle@);
            }
            return true;
        }
        i = i + 1;
    }
    proof {
        assert forall|p: int| 0 <= p && p + needle@.len() <= hay@.len() implies #[trigger] hay@.subrange(
            p,
            p + needle@.len(),
        ) != needle@ by {
            assert(p < i);
        }
    }
    false
}

/// Index of the first header equal to `name`, or the header count when
/// there is none.
fn find_column(headers: &Vec<String>, name: &String) -> (r: usize)
    ensures
        r as int == find_col(headers.deep_view(), name@),
{
    proof {
        lemma_find_col(headers.deep_view(), name@);
    }
    let n = headers.len();
    let mut i: usize = 0;
    while i < n
        invariant
            i <= n,
            n == headers@.len(),
            forall|k: int| 0 <= k < i ==> headers.deep_view()[k] != name@,
        decreases n - i,
    {
        if headers[i] == *name {
            proof {
                let hs = headers.deep_view();
                lemma_find_col(hs, name@);
                assert(hs[i as int] == name@);
            }
            return i;
        }
        i = i + 1;
    }
    proof {
        lemma_find_col(headers.deep_view(), name@);
    }
    n
}

/// The characters a piece of text contributes to matching: folded to
/// lower case when the search is case-insensitive.
fn match_key(text: &str, ci: bool) -> (r: Vec<char>)
    ensures
        r@ == (if ci {
            lower_of(text@)
        } else {
            text@
        }),
{
    if ci {
        let low = lowercase(text);
        str_to_chars(low.as_str())
    } else {
        str_to_chars(text)
    }
}

/// Search the rows for a query string: pre-filter each row's raw text,
/// parse the hits, re-check the restricted column when one is named, and
/// cap the result count.
///
/// Results come back in ascending row order; rows that cannot be decoded
/// are skipped silently; only an unknown column name is an error.
#[verifier::rlimit(30)]
pub fn search(reader: &CsvReader, query: &str, options: &SearchOptions) -> (r: Result<
    Vec<SearchResult>,
    MassiveCsvError,
>)
    requires
        reader.wf(),
    ensures
        ({
            let hs = reader.headers.deep_view();
            let col = resolved_col(hs, options.column);
            match r {
                Ok(v) => {
                    &&& (options.column matches Some(c) ==> find_col(hs, c@) < hs.len())
                    &&& results_agree(
                        v@,
                        search_spec(
                            *reader,
                            query@,
                            options.case_insensitive,
                            col,
                            options.max_results as int,
                        ),
                    )
                },
                Err(e) => {
                    &&& (options.column matches Some(c) && find_col(hs, c@) >= hs.len() && (
                    e matches MassiveCsvError::ColumnNotFound(m) && m@ == c@))
                },
            }
        }),
{
    let ghost hs = reader.headers.deep_view();
    let column_index: Option<usize> = match &options.column {
        Option::Some(name) => {
            let idx = find_column(&reader.headers, name);
            if idx >= reader.headers.len() {
                return Result::Err(MassiveCsvError::ColumnNotFound(name.clone()));
            }
            Option::Some(idx)
        },
        Option::None => Option::None,
    };
    let ghost col = resolved_col(hs, options.column);
    proof {
        match column_index {
            Option::Some(idx) => assert(col == Option::Some(idx as int)),
            Option::None => assert(col is None),
        }
    }
    let ci = options.case_insensitive;
    let count = reader.row_count();
    let mut results: Vec<SearchResult> = Vec::new();
    let mut i: usize = 0;
    while i < count
        invariant
            reader.wf(),
            i <= count,
            count == reader.spec_row_count(),
            ci == options.case_insensitive,
            col == (match column_index {
                Option::Some(idx) => Option::Some(idx as int),
                Option::None => Option::<int>::None,
            }),
            results_agree(results@, results_upto(*reader, query@, ci, col, i as int)),
        decreases count - i,
    {
        let ghost prev = results_upto(*reader, query@, ci, col, i as int);
        match search_row(reader, i, query, ci, column_index) {
            Option::Some(res) => {
                results.push(res);
            },
            Option::None => {},
        }
        proof {
            assert(results_agree(results@, results_upto(*reader, query@, ci, col, i + 1 as int)));
        }
        i = i + 1;
    }
    let max = options.max_results;
    if max > 0 && results.len() > max {
        results.truncate(max);
    }
    proof {
        assert(col == resolved_col(reader.headers.deep_view(), options.column));
        assert(results_agree(
            results@,
            search_spec(*reader, query@, options.case_insensitive, col, max as int),
        ));
    }
    Result::Ok(results)
}

/// The scan's decision for one row: `None` when the row is skipped
/// (undecodable, no raw-text hit, or no hit in the restricted column),
/// its result otherwise. Exposed on its own so a caller may hand rows
/// out to worker threads while keeping the verified per-row logic.
pub fn search_row(
    reader: &CsvReader,
    row: usize,
    query: &str,
    case_insensitive: bool,
    column_index: Option<usize>,
) -> (r: Option<SearchResult>)
    requires
        reader.wf(),
        row < reader.spec_row_count(),
    ensures
        ({
            let col = match column_index {
                Option::Some(idx) => Option::Some(idx as int),
                Option::None => Option::<int>::None,
            };
            match r {
                Option::Some(res) => row_match(*reader, row as int, query@, case_insensitive, col)
                    == Option::Some(res.fields.deep_view()) && res.row_num == row,
                Option::None => row_match(*reader, row as int, query@, case_insensitive, col)
                    is None,
            }
        }),
{
    let ci = case_insensitive;
    let needle = match_key(query, ci);
    match reader.get_row_raw(row) {
        Result::Ok(raw) => {
            let hay = match_key(raw.as_str(), ci);
            if contains_chars(&hay, &needle) {
                match parse_row(raw.as_str(), reader.delimiter) {
                    Result::Ok(fields) => {
                        let keep: bool = match column_index {
                            Option::Some(c) => {
                                if c < fields.len() {
                                    let fkey = match_key(fields[c].as_str(), ci);
                                    contains_chars(&fkey, &needle)
                                } else {
                                    false
                                }
                            },
                            Option::None => true,
                        };
                        if keep {
                            Option::Some(SearchResult { row_num: row, fields })
                        } else {
                            Option::None
                        }
                    },
                    Result::Err(_) => Option::None,
                }
            } else {
                Option::None
            }
        },
        Result::Err(_) => {
            // An undecodable row is skipped silently.
            Option::None
        },
    }
}

} // verus!
