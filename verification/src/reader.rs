//! The row-indexed reader: the file's bytes plus an offset index giving
//! O(1) access to each data row.

use vstd::prelude::*;
use vstd::slice::slice_index_get;
use vstd::slice::slice_subrange;
use vstd::slice::slice_to_vec;
use vstd::utf8::decode_utf8;
use vstd::utf8::valid_utf8;

use crate::error::MassiveCsvError;
use crate::parser::CR_BYTE;
use crate::parser::NEWLINE_BYTE;
use crate::parser::detect_delimiter;
use crate::parser::detect_spec;
use crate::parser::find_byte;
use crate::parser::line_at;
use crate::parser::parse_fields;
use crate::parser::parse_headers;
use crate::parser::parse_row;
use crate::text::bytes_to_string;

verus! {

/// Drop one trailing line feed, then one trailing carriage return.
pub open spec fn strip_ending(b: Seq<u8>) -> Seq<u8> {
    let b1 = if b.len() > 0 && b[b.len() - 1] == NEWLINE_BYTE {
        b.drop_last()
    } else {
        b
    };
    if b1.len() > 0 && b1[b1.len() - 1] == CR_BYTE {
        b1.drop_last()
    } else {
        b1
    }
}

/// Drop one trailing `\n`, then one trailing `\r`, from the end of a
/// byte sequence.
pub fn strip_line_ending(data: &[u8]) -> (v: Vec<u8>)
    ensures
        v@ == strip_ending(data@),
{
    let mut end = data.len();
    if end > 0 && *slice_index_get(data, end - 1) == NEWLINE_BYTE {
        end = end - 1;
    }
    if end > 0 && *slice_index_get(data, end - 1) == CR_BYTE {
        end = end - 1;
    }
    let v = slice_to_vec(slice_subrange(data, 0, end));
    proof {
        assert(v@ =~= strip_ending(data@));
    }
    v
}

/// True of the ASCII whitespace bytes.
pub open spec fn is_ws_byte(b: u8) -> bool {
    b == 32 || b == 9 || b == 10 || b == 13 || b == 12
}

/// True when every byte of the sequence is ASCII whitespace.
pub open spec fn all_ws(b: Seq<u8>) -> bool {
    forall|i: int| 0 <= i < b.len() ==> is_ws_byte(b[i])
}

/// The row-start positions recorded while scanning byte positions
/// `[lo, hi)`: every position one past a line feed, provided it is still
/// inside the buffer.
pub open spec fn succs_in(data: Seq<u8>, lo: int, hi: int) -> Seq<int>
    decreases hi - lo,
{
    if hi <= lo {
        Seq::empty()
    } else {
        succs_in(data, lo, hi - 1) + (if data[hi - 1] == NEWLINE_BYTE && hi < data.len() {
            seq![hi]
        } else {
            Seq::empty()
        })
    }
}

/// Every row start: `data_start` itself, then every in-bounds successor
/// of a line feed.
pub open spec fn full_index(data: Seq<u8>, data_start: int) -> Seq<int> {
    if data_start < 0 || data_start >= data.len() {
        Seq::empty()
    } else {
        seq![data_start] + succs_in(data, data_start, data.len() as int)
    }
}

/// The row offset index: all row starts, with the final one dropped when
/// the bytes it points at are blank (empty or all whitespace after
/// stripping one line ending).
pub open spec fn index_spec(data: Seq<u8>, data_start: int) -> Seq<int> {
    let f = full_index(data, data_start);
    if f.len() > 0 && all_ws(strip_ending(data.subrange(f.last(), data.len() as int))) {
        f.drop_last()
    } else {
        f
    }
}

/// The byte position one past the header line's terminating line feed,
/// or the buffer's length when no line feed exists.
pub open spec fn data_start_spec(data: Seq<u8>) -> int {
    let e = find_byte(data, NEWLINE_BYTE, 0);
    if e < data.len() {
        e + 1
    } else {
        data.len() as int
    }
}

/// Element-wise agreement between a recorded index and its specification.
pub open spec fn idx_matches(v: Seq<usize>, s: Seq<int>) -> bool {
    v.len() == s.len() && forall|k: int| 0 <= k < v.len() ==> v[k] as int == s[k]
}

proof fn lemma_succs_in_props(data: Seq<u8>, lo: int, hi: int)
    requires
        0 <= lo,
    ensures
        forall|k: int|
            0 <= k < succs_in(data, lo, hi).len() ==> lo < #[trigger] succs_in(data, lo, hi)[k]
                <= hi && succs_in(data, lo, hi)[k] < data.len() && data[succs_in(data, lo, hi)[k]
                - 1] == NEWLINE_BYTE,
        forall|j: int, k: int|
            0 <= j < k < succs_in(data, lo, hi).len() ==> succs_in(data, lo, hi)[j] < succs_in(
                data,
                lo,
                hi,
            )[k],
    decreases hi - lo,
{
    if hi > lo {
        lemma_succs_in_props(data, lo, hi - 1);
        let pre = succs_in(data, lo, hi - 1);
        let s = succs_in(data, lo, hi);
        if data[hi - 1] == NEWLINE_BYTE && hi < data.len() {
            assert(s =~= pre.push(hi));
            assert forall|k: int| 0 <= k < s.len() implies lo < #[trigger] s[k] <= hi && s[k]
                < data.len() && data[s[k] - 1] == NEWLINE_BYTE by {
                if k < pre.len() {
                    assert(s[k] == pre[k]);
                } else {
                    assert(s[k] == hi);
                }
            }
        } else {
            assert(s =~= pre);
        }
    }
}

/// The index's well-formedness: entries lie in `[data_start, len)`,
/// strictly increase, begin at `data_start`, and each later entry
/// directly follows a line feed.
pub proof fn lemma_index_spec_wf(data: Seq<u8>, data_start: int)
    requires
        0 <= data_start,
    ensures
        forall|k: int|
            0 <= k < index_spec(data, data_start).len() ==> data_start <= #[trigger] index_spec(
                data,
                data_start,
            )[k] < data.len(),
        forall|j: int, k: int|
            0 <= j < k < index_spec(data, data_start).len() ==> index_spec(data, data_start)[j]
                < index_spec(data, data_start)[k],
        index_spec(data, data_start).len() > 0 ==> index_spec(data, data_start)[0] == data_start,
        forall|k: int|
            1 <= k < index_spec(data, data_start).len() ==> data[#[trigger] index_spec(
                data,
                data_start,
            )[k] - 1] == NEWLINE_BYTE,
{
    lemma_succs_in_props(data, data_start, data.len() as int);
}

/// A memory-resident CSV reader with O(1) row access via line indexing.
///
/// The reader owns the file's bytes; reading the file itself (or mapping
/// it into memory) happens outside the engine, which is handed the bytes.
pub struct CsvReader {
    /// The file's bytes.
    pub data: Vec<u8>,
    /// Byte offset of the start of each data row (row 0 is the first row
    /// after the header).
    pub line_index: Vec<usize>,
    /// The parsed column names.
    pub headers: Vec<String>,
    /// The inferred delimiter byte.
    pub delimiter: u8,
    /// The file path the bytes were read from.
    pub path: String,
}

impl CsvReader {
    /// Well-formedness: every index entry lies inside the data and the
    /// entries strictly increase.
    pub open spec fn wf(&self) -> bool {
        &&& forall|i: int|
            0 <= i < self.line_index@.len() ==> (#[trigger] self.line_index@[i] as int)
                < self.data@.len()
        &&& forall|i: int, j: int|
            0 <= i < j < self.line_index@.len() ==> (#[trigger] self.line_index@[i] as int) < (
            #[trigger] self.line_index@[j] as int)
    }

    /// Number of data rows.
    pub open spec fn spec_row_count(&self) -> int {
        self.line_index@.len() as int
    }

    /// One past the last byte of row `i`: the next row's start, or the
    /// end of the data.
    pub open spec fn row_end(&self, i: int) -> int {
        if i + 1 < self.line_index@.len() {
            self.line_index@[i + 1] as int
        } else {
            self.data@.len() as int
        }
    }

    /// The raw bytes of row `i`, including its line ending.
    pub open spec fn row_slice(&self, i: int) -> Seq<u8> {
        self.data@.subrange(self.line_index@[i] as int, self.row_end(i))
    }

    /// The text bytes of row `i`: its raw bytes with one line ending
    /// stripped.
    pub open spec fn row_text(&self, i: int) -> Seq<u8> {
        strip_ending(self.row_slice(i))
    }

    /// Open a CSV buffer: reject empty data, infer the delimiter, parse
    /// the header line, and build the row offset index.
    pub fn open(data: Vec<u8>, path: String) -> (r: Result<CsvReader, MassiveCsvError>)
        requires
            data@.len() < usize::MAX,
        ensures
            match r {
                Ok(rd) => {
                    &&& data@.len() > 0
                    &&& valid_utf8(line_at(data@, 0))
                    &&& rd.wf()
                    &&& rd.data@ == data@
                    &&& rd.path@ == path@
                    &&& rd.delimiter == detect_spec(data@).spec_byte()
                    &&& rd.headers.deep_view() == parse_fields(
                        decode_utf8(line_at(data@, 0)),
                        rd.delimiter as char,
                    )
                    &&& idx_matches(rd.line_index@, index_spec(data@, data_start_spec(data@)))
                },
                Err(e) => {
                    ||| (data@.len() == 0 && e is EmptyFile)
                    ||| (data@.len() > 0 && !valid_utf8(line_at(data@, 0)) && e is InvalidUtf8)
                },
            },
    {
        if data.len() == 0 {
            return Result::Err(MassiveCsvError::EmptyFile);
        }
        let delimiter = detect_delimiter(data.as_slice()).as_byte();
        let headers = match parse_headers(data.as_slice(), delimiter) {
            Result::Ok(h) => h,
            Result::Err(e) => {
                return Result::Err(e);
            },
        };
        let header_end = find_newline_end(data.as_slice());
        let line_index = build_index(data.as_slice(), header_end);
        proof {
            lemma_index_spec_wf(data@, header_end as int);
        }
        Result::Ok(CsvReader { data, line_index, headers, delimiter, path })
    }

    /// Number of data rows (excluding the header).
    pub fn row_count(&self) -> (r: usize)
        ensures
            r == self.spec_row_count(),
    {
        self.line_index.len()
    }

    /// The column headers.
    pub fn headers(&self) -> (r: &Vec<String>)
        ensures
            r == self.headers,
    {
        &self.headers
    }

    /// The inferred delimiter byte.
    pub fn delimiter(&self) -> (r: u8)
        ensures
            r == self.delimiter,
    {
        self.delimiter
    }

    /// The file path this reader was opened from.
    pub fn path(&self) -> (r: &String)
        ensures
            r == self.path,
    {
        &self.path
    }

    /// The text of row `row`: its bytes with one trailing line ending
    /// stripped, decoded as UTF-8.
    pub fn get_row_raw(&self, row: usize) -> (r: Result<String, MassiveCsvError>)
        requires
            self.wf(),
        ensures
            row >= self.spec_row_count() ==> (r matches Err(MassiveCsvError::RowOutOfRange(a, b))
                && a == row && b == self.spec_row_count()),
            row < self.spec_row_count() && valid_utf8(self.row_text(row as int)) ==> (r matches Ok(
                s,
            ) && s@ == decode_utf8(self.row_text(row as int))),
            row < self.spec_row_count() && !valid_utf8(self.row_text(row as int)) ==> (r matches Err(
                MassiveCsvError::InvalidUtf8(p),
            ) && p == self.line_index@[row as int]),
    {
        let count = self.row_count();
        if row >= count {
            return Result::Err(MassiveCsvError::RowOutOfRange(row, count));
        }
        let start = self.line_index[row];
        let end = if row + 1 < count {
            self.line_index[row + 1]
        } else {
            self.data.len()
        };
        let slice = slice_subrange(self.data.as_slice(), start, end);
        let text = strip_line_ending(slice);
        match bytes_to_string(text.as_slice()) {
            Option::Some(s) => Result::Ok(s),
            Option::None => Result::Err(MassiveCsvError::InvalidUtf8(start)),
        }
    }

    /// Row `row`, parsed into fields with the reader's delimiter.
    pub fn get_row(&self, row: usize) -> (r: Result<Vec<String>, MassiveCsvError>)
        requires
            self.wf(),
        ensures
            row >= self.spec_row_count() ==> (r matches Err(MassiveCsvError::RowOutOfRange(a, b))
                && a == row && b == self.spec_row_count()),
            row < self.spec_row_count() && valid_utf8(self.row_text(row as int)) ==> (r matches Ok(
                v,
            ) && v.deep_view() == parse_fields(
                decode_utf8(self.row_text(row as int)),
                self.delimiter as char,
            )),
            row < self.spec_row_count() && !valid_utf8(self.row_text(row as int)) ==> (r matches Err(
                MassiveCsvError::InvalidUtf8(p),
            ) && p == self.line_index@[row as int]),
    {
        match self.get_row_raw(row) {
            Result::Ok(raw) => parse_row(raw.as_str(), self.delimiter),
            Result::Err(e) => Result::Err(e),
        }
    }

    /// Rows `[start, min(end, row_count))`, each parsed into fields;
    /// empty when `start` is not below that bound.
    pub fn get_rows(&self, start: usize, end: usize) -> (r: Result<
        Vec<Vec<String>>,
        MassiveCsvError,
    >)
        requires
            self.wf(),
        ensures
            ({
                let hi = if end > self.spec_row_count() {
                    self.spec_row_count()
                } else {
                    end as int
                };
                &&& (r is Ok <==> (forall|k: int|
                    start <= k < hi ==> valid_utf8(#[trigger] self.row_text(k))))
                &&& (r matches Ok(v) ==> {
                    &&& v@.len() == (if (start as int) < hi {
                        hi - start
                    } else {
                        0int
                    })
                    &&& forall|k: int|
                        0 <= k < v@.len() ==> #[trigger] v.deep_view()[k] == parse_fields(
                            decode_utf8(self.row_text(start + k)),
                            self.delimiter as char,
                        )
                })
                &&& (r is Err ==> r matches Err(MassiveCsvError::InvalidUtf8(p)))
            }),
    {
        let count = self.row_count();
        let hi = if end > count {
            count
        } else {
            end
        };
        let mut rows: Vec<Vec<String>> = Vec::new();
        if start >= hi {
            proof {
                assert(rows.deep_view() =~~= Seq::<Seq<Seq<char>>>::empty());
            }
            return Result::Ok(rows);
        }
        let mut i: usize = start;
        while i < hi
            invariant
                self.wf(),
                start <= i <= hi <= self.spec_row_count(),
                hi == if end > self.spec_row_count() {
                    self.spec_row_count()
                } else {
                    end as int
                },
                rows@.len() == i - start,
                forall|k: int| start <= k < i ==> valid_utf8(#[trigger] self.row_text(k)),
                forall|k: int|
                    0 <= k < rows@.len() ==> #[trigger] rows.deep_view()[k] == parse_fields(
                        decode_utf8(self.row_text(start + k)),
                        self.delimiter as char,
                    ),
            decreases hi - i,
        {
            let ghost prev = rows.deep_view();
            match self.get_row(i) {
                Result::Ok(fields) => {
                    rows.push(fields);
                    proof {
                        assert(rows.deep_view() =~~= prev.push(rows@[rows@.len() - 1].deep_view()));
                    }
                },
                Result::Err(e) => {
                    return Result::Err(e);
                },
            }
            i = i + 1;
        }
        Result::Ok(rows)
    }
}

/// One past the first line feed in the buffer, or the buffer's length
/// when there is none.
fn find_newline_end(data: &[u8]) -> (r: usize)
    ensures
        r as int == data_start_spec(data@),
        r <= data@.len(),
{
    let n = data.len();
    let mut i: usize = 0;
    while i < n
        invariant
            i <= n,
            n == data@.len(),
            find_byte(data@, NEWLINE_BYTE, 0) == find_byte(data@, NEWLINE_BYTE, i as int),
        decreases n - i,
    {
        if *slice_index_get(data, i) == NEWLINE_BYTE {
            return i + 1;
        }
        i = i + 1;
    }
    n
}

/// Build the row offset index for the data that follows the header:
/// record `data_start`, then every in-bounds byte just after a line
/// feed, and finally drop the last entry when it points at a blank tail.
pub fn build_index(data: &[u8], data_start: usize) -> (r: Vec<usize>)
    ensures
        idx_matches(r@, index_spec(data@, data_start as int)),
{
    let n = data.len();
    if data_start >= n {
        let r: Vec<usize> = Vec::new();
        return r;
    }
    let mut index: Vec<usize> = Vec::new();
    index.push(data_start);
    let mut pos: usize = data_start;
    while pos < n
        invariant
            data_start <= pos <= n,
            n == data@.len(),
            data_start < n,
            index@.len() >= 1,
            forall|k: int| 0 <= k < index@.len() ==> #[trigger] index@[k] < n,
            idx_matches(index@, seq![data_start as int] + succs_in(data@, data_start as int, pos as int)),
        decreases n - pos,
    {
        if *slice_index_get(data, pos) == NEWLINE_BYTE && pos + 1 < n {
            index.push(pos + 1);
        }
        proof {
            assert(seq![data_start as int] + succs_in(data@, data_start as int, pos + 1 as int)
                =~= seq![data_start as int] + succs_in(data@, data_start as int, pos as int) + (
            if data@[pos as int] == NEWLINE_BYTE && pos + 1 < data@.len() {
                seq![pos + 1 as int]
            } else {
                Seq::<int>::empty()
            }));
        }
        pos = pos + 1;
    }
    // Drop the final entry when the tail it points at is blank.
    proof {
        let f = full_index(data@, data_start as int);
        assert(f == seq![data_start as int] + succs_in(
            data@,
            data_start as int,
            data@.len() as int,
        ));
        assert(idx_matches(index@, f));
    }
    let last = index[index.len() - 1];
    let tail = strip_line_ending(slice_subrange(data, last, n));
    let mut blank = true;
    let mut j: usize = 0;
    while j < tail.len()
        invariant
            j <= tail@.len(),
            blank == (forall|k: int| 0 <= k < j ==> is_ws_byte(#[trigger] tail@[k])),
        decreases tail@.len() - j,
    {
        let b = tail[j];
        if !(b == 32 || b == 9 || b == 10 || b == 13 || b == 12) {
            blank = false;
            proof {
                assert(!is_ws_byte(tail@[j as int]));
            }
        }
        j = j + 1;
    }
    proof {
        let f = full_index(data@, data_start as int);
        assert(f.len() == index@.len());
        assert(f.last() == index@[index@.len() - 1] as int);
        assert(tail@ == strip_ending(data@.subrange(last as int, data@.len() as int)));
        assert(blank == all_ws(strip_ending(data@.subrange(f.last(), data@.len() as int))));
    }
    if blank {
        let ghost before = index@;
        index.pop();
        proof {
            let f = full_index(data@, data_start as int);
            assert(index@ =~= before.drop_last());
            assert(idx_matches(index@, f.drop_last()));
        }
    }
    index
}

} // verus!
