//! The edit-tracking layer: a pending-edit map layered over the reader,
//! and a save that renders the whole new file and refreshes the reader
//! on it.

use vstd::prelude::*;
use vstd::slice::slice_subrange;
use vstd::string::StrSliceExecFns;
use vstd::string::StringExecFns;
use vstd::utf8::decode_utf8;
use vstd::utf8::encode_utf8;
use vstd::utf8::valid_utf8;

use crate::error::MassiveCsvError;
use crate::format::dec_str;
use crate::format::usize_to_string;
use crate::parser::CR_BYTE;
use crate::parser::NEWLINE_BYTE;
use crate::parser::detect_spec;
use crate::parser::escape_quotes;
use crate::parser::forces_quote;
use crate::parser::lemma_parse_serialize_round_trip;
use crate::parser::line_at;
use crate::parser::needs_quote;
use crate::parser::parse_fields;
use crate::parser::ser_field;
use crate::parser::ser_fields;
use crate::parser::serialize_row;
use crate::reader::CsvReader;
use crate::reader::data_start_spec;
use crate::reader::idx_matches;
use crate::reader::index_spec;
use crate::reader::strip_ending;
use crate::reader::strip_line_ending;
use crate::text::bytes_to_string;

verus! {

/// Number of pending edits among the first `p` entries of an edit map.
pub open spec fn count_edits(s: Seq<Option<Vec<String>>>, p: int) -> int
    decreases p,
{
    if p <= 0 {
        0
    } else {
        count_edits(s, p - 1) + if s[p - 1] is Some {
            1int
        } else {
            0int
        }
    }
}

proof fn lemma_count_edits_bound(s: Seq<Option<Vec<String>>>, p: int)
    ensures
        0 <= count_edits(s, p) <= if p <= 0 {
            0int
        } else {
            p
        },
    decreases p,
{
    if p > 0 {
        lemma_count_edits_bound(s, p - 1);
    }
}

/// Two edit maps that agree on which rows are edited have the same count.
proof fn lemma_count_edits_agree(s1: Seq<Option<Vec<String>>>, s2: Seq<Option<Vec<String>>>, p: int)
    requires
        forall|k: int| 0 <= k < p ==> (s1[k] is Some <==> s2[k] is Some),
    ensures
        count_edits(s1, p) == count_edits(s2, p),
    decreases p,
{
    if p > 0 {
        lemma_count_edits_agree(s1, s2, p - 1);
    }
}

/// Updating one entry changes the count by the difference at that entry.
proof fn lemma_count_edits_update(
    s: Seq<Option<Vec<String>>>,
    k: int,
    v: Option<Vec<String>>,
    p: int,
)
    requires
        0 <= k < s.len(),
        p <= s.len(),
    ensures
        count_edits(s.update(k, v), p) == count_edits(s, p) + if k < p {
            (if v is Some {
                1int
            } else {
                0int
            }) - (if s[k] is Some {
                1int
            } else {
                0int
            })
        } else {
            0int
        },
    decreases p,
{
    if p > 0 {
        lemma_count_edits_update(s, k, v, p - 1);
    }
}

/// A map with a pending edit at `k` counts at least one.
proof fn lemma_count_edits_some(s: Seq<Option<Vec<String>>>, k: int, p: int)
    requires
        0 <= k < p,
        s[k] is Some,
    ensures
        count_edits(s, p) >= 1,
    decreases p,
{
    lemma_count_edits_bound(s, p - 1);
    if k < p - 1 {
        lemma_count_edits_some(s, k, p - 1);
    }
}

/// A map with an unedited row at `k` counts at most `p - 1`.
proof fn lemma_count_edits_none(s: Seq<Option<Vec<String>>>, k: int, p: int)
    requires
        0 <= k < p,
        s[k] is None,
    ensures
        count_edits(s, p) <= p - 1,
    decreases p,
{
    lemma_count_edits_bound(s, p - 1);
    if k < p - 1 {
        lemma_count_edits_none(s, k, p - 1);
    }
}

/// An edit map of `count` unedited rows.
fn none_edits(count: usize) -> (r: Vec<Option<Vec<String>>>)
    ensures
        r@.len() == count,
        forall|k: int| 0 <= k < count ==> r@[k] is None,
        count_edits(r@, count as int) == 0,
{
    let mut edits: Vec<Option<Vec<String>>> = Vec::new();
    let mut i: usize = 0;
    while i < count
        invariant
            i <= count,
            edits@.len() == i,
            forall|k: int| 0 <= k < i ==> edits@[k] is None,
            count_edits(edits@, i as int) == 0,
        decreases count - i,
    {
        let ghost prev = edits@;
        edits.push(Option::None);
        proof {
            lemma_count_edits_agree(edits@, prev, i as int);
        }
        i = i + 1;
    }
    edits
}

/// Copy a row's fields.
fn clone_fields(f: &Vec<String>) -> (r: Vec<String>)
    ensures
        r.deep_view() == f.deep_view(),
{
    let mut r: Vec<String> = Vec::new();
    let n = f.len();
    let mut i: usize = 0;
    while i < n
        invariant
            i <= n,
            n == f@.len(),
            r@.len() == i,
            forall|k: int| 0 <= k < i ==> r.deep_view()[k] == f.deep_view()[k],
        decreases n - i,
    {
        let s = f[i].clone();
        r.push(s);
        i = i + 1;
    }
    proof {
        assert(r.deep_view() =~~= f.deep_view());
    }
    r
}

/// Stripping one line ending from `x + "\n"` gives back `x`, provided
/// `x` does not itself end with a carriage return.
proof fn lemma_strip_append_newline(x: Seq<u8>)
    requires
        x.len() == 0 || x[x.len() - 1] != CR_BYTE,
    ensures
        strip_ending(x + seq![NEWLINE_BYTE]) == x,
{
    let y = x + seq![NEWLINE_BYTE];
    assert(y[y.len() - 1] == NEWLINE_BYTE);
    assert(y.drop_last() =~= x);
}

/// A serialized row never ends with a carriage return: a field holding
/// one is quoted, so every line ends with a closing quote, an ordinary
/// character, or the delimiter.
proof fn lemma_ser_fields_last(fs: Seq<Seq<char>>, d: char)
    requires
        d != '\r',
    ensures
        ser_fields(fs, d).len() > 0 ==> ser_fields(fs, d).last()
            != '\r',
    decreases fs.len(),
{
    let s = ser_fields(fs, d);
    if fs.len() == 0 {
    } else if fs.len() == 1 {
        let f = fs[0];
        if needs_quote(f, d) {
            assert(s == seq!['"'] + escape_quotes(f) + seq!['"']);
            assert(s.last() == '"');
        } else {
            assert(s == f);
            if f.len() > 0 {
                assert(!forces_quote(f[f.len() - 1], d));
            }
        }
    } else {
        let rest = ser_fields(fs.drop_first(), d);
        lemma_ser_fields_last(fs.drop_first(), d);
        assert(s == ser_field(fs[0], d) + seq![d] + rest);
        if rest.len() > 0 {
            assert(s.last() == rest.last());
        } else {
            assert(s.last() == d);
        }
    }
}

/// The UTF-8 encoding of text that does not end in a carriage return
/// does not end in a carriage-return byte: one-byte encodings keep the
/// character's value, and longer encodings end in a continuation byte.
proof fn lemma_encode_last_byte(s: Seq<char>)
    requires
        s.len() > 0,
        s[s.len() - 1] != '\r',
    ensures
        encode_utf8(s).len() > 0,
        encode_utf8(s)[encode_utf8(s).len() - 1] != CR_BYTE,
    decreases s.len(),
{
    broadcast use vstd::utf8::char_is_scalar;

    let c = s[0];
    let u = c as u32;
    let e0 = vstd::utf8::encode_scalar(u);
    assert(e0.len() > 0);
    if s.len() == 1 {
        assert(s.drop_first() =~= Seq::<char>::empty());
        assert(encode_utf8(Seq::<char>::empty()) =~= Seq::<u8>::empty());
        assert(encode_utf8(s) =~= e0);
        if vstd::utf8::has_width_1_encoding(u) {
            assert(e0 == seq![vstd::utf8::leading_byte_width_1(u)]);
            assert(u & 0x7f == u) by (bit_vector)
                requires
                    u <= 0x7f,
            ;
            if e0[0] == CR_BYTE {
                assert(u == 13);
                vstd::utf8::char_u32_cast(c, u);
                assert(('\r' as u32) == 13);
                vstd::utf8::char_u32_cast('\r', 13);
                assert(false);
            }
        } else {
            assert(e0.last() == vstd::utf8::last_continuation_byte(u));
            assert(0x80u8 | ((u & 0x3F) as u8) != 13u8) by (bit_vector);
        }
    } else {
        lemma_encode_last_byte(s.drop_first());
        assert(encode_utf8(s) == e0 + encode_utf8(s.drop_first()));
        assert(encode_utf8(s).last() == encode_utf8(s.drop_first()).last());
    }
}

/// What a saved file gives back, row by row: a row with a pending edit
/// reads back as exactly the fields that were set, and a row without
/// one keeps its original text. Together with `save`'s own contract
/// (the edit map is cleared and the row count is unchanged), this says
/// a save preserves what every row shows.
///
/// The two provisos mirror genuine boundary behavior of the format: a
/// row edited to a single empty field serializes to an empty line,
/// which parses back as no fields at all; and an unedited row whose
/// text ends in a bare carriage return loses it to the rewritten line
/// ending.
pub proof fn lemma_save_round_trip(pre: CsvEditor, post: CsvEditor, i: int)
    requires
        pre.wf(),
        0 <= i < pre.spec_row_count(),
        pre.row_readable(i),
        post.reader.delimiter == pre.reader.delimiter,
        pre.reader.delimiter != 34,
        pre.reader.delimiter != 13,
        post.reader.row_slice(i) == pre.row_out(i) + seq![NEWLINE_BYTE],
        match pre.edits@[i] {
            Option::Some(f) => !(f.deep_view().len() == 1 && f.deep_view()[0].len() == 0),
            Option::None => pre.reader.row_text(i).len() == 0 || pre.reader.row_text(i)[pre.reader.row_text(
                i,
            ).len() - 1] != CR_BYTE,
        },
    ensures
        valid_utf8(post.reader.row_text(i)),
        parse_fields(decode_utf8(post.reader.row_text(i)), post.reader.delimiter as char)
            == pre.current_row(i),
{
    broadcast use vstd::utf8::encode_utf8_valid_utf8;
    broadcast use vstd::utf8::encode_utf8_decode_utf8;

    let d = pre.reader.delimiter as char;
    assert((d as u32) == pre.reader.delimiter);
    assert(('"' as u32) == 34);
    assert(('\r' as u32) == 13);
    assert(d != '"');
    assert(d != '\r');
    match pre.edits@[i] {
        Option::Some(f) => {
            let fields = f.deep_view();
            let line = ser_fields(fields, d);
            let x = encode_utf8(line);
            assert(pre.row_out(i) == x);
            if line.len() == 0 {
                assert(x =~= Seq::<u8>::empty());
                lemma_strip_append_newline(x);
                assert(post.reader.row_text(i) == x);
                assert(decode_utf8(x) =~= Seq::<char>::empty()) by {
                    assert(encode_utf8(Seq::<char>::empty()) =~= Seq::<u8>::empty());
                    assert(decode_utf8(encode_utf8(Seq::<char>::empty())) == Seq::<char>::empty());
                }
                assert(valid_utf8(x)) by {
                    assert(encode_utf8(Seq::<char>::empty()) =~= Seq::<u8>::empty());
                    assert(valid_utf8(encode_utf8(Seq::<char>::empty())));
                }
                assert(fields.len() == 0) by {
                    if fields.len() == 1 {
                        if needs_quote(fields[0], d) {
                            assert(line == seq!['"'] + escape_quotes(fields[0]) + seq!['"']);
                            assert(line.len() >= 2);
                        } else {
                            assert(line == fields[0]);
                        }
                    } else if fields.len() > 1 {
                        assert(line == ser_field(fields[0], d) + seq![d] + ser_fields(
                            fields.drop_first(),
                            d,
                        ));
                        assert(line.len() >= 1);
                    }
                }
                assert(parse_fields(decode_utf8(post.reader.row_text(i)), d) =~= fields);
            } else {
                lemma_ser_fields_last(fields, d);
                lemma_encode_last_byte(line);
                lemma_strip_append_newline(x);
                assert(post.reader.row_text(i) == x);
                assert(valid_utf8(x));
                assert(decode_utf8(x) == line);
                lemma_parse_serialize_round_trip(fields, d);
            }
        },
        Option::None => {
            let x = pre.reader.row_text(i);
            lemma_strip_append_newline(x);
            assert(post.reader.row_text(i) == x);
        },
    }
}

/// Rendering grows with the row count, and earlier renderings are
/// prefixes of later ones.
pub proof fn lemma_render_prefix(ed: CsvEditor, j: int, k: int)
    requires
        0 <= j <= k,
    ensures
        ed.render_upto(j).len() + (k - j) <= ed.render_upto(k).len(),
        ed.render_upto(j) == ed.render_upto(k).subrange(0, ed.render_upto(j).len() as int),
    decreases k - j,
{
    if j < k {
        lemma_render_prefix(ed, j, k - 1);
        assert(ed.render_upto(k).subrange(0, ed.render_upto(k - 1).len() as int) =~= ed.render_upto(
            k - 1,
        ));
        assert(ed.render_upto(k).subrange(0, ed.render_upto(j).len() as int) =~= ed.render_upto(
            k - 1,
        ).subrange(0, ed.render_upto(j).len() as int));
    } else {
        assert(ed.render_upto(j).subrange(0, ed.render_upto(j).len() as int) =~= ed.render_upto(j));
    }
}

/// A CSV editor that keeps pending row edits in memory and applies them
/// all at once on save.
pub struct CsvEditor {
    /// The underlying reader.
    pub reader: CsvReader,
    /// `edits[i]` holds row `i`'s replacement fields when the row has a
    /// pending edit.
    pub edits: Vec<Option<Vec<String>>>,
    /// Number of pending edits.
    pub n_edits: usize,
}

impl CsvEditor {
    /// Well-formedness: the reader is well formed, the edit map covers
    /// exactly the rows, and the edit counter counts the pending edits.
    pub open spec fn wf(&self) -> bool {
        &&& self.reader.wf()
        &&& self.edits@.len() == self.reader.spec_row_count()
        &&& self.n_edits as int == count_edits(self.edits@, self.edits@.len() as int)
    }

    /// Number of data rows.
    pub open spec fn spec_row_count(&self) -> int {
        self.reader.spec_row_count()
    }

    /// The fields row `i` currently shows: its pending edit when there
    /// is one, otherwise the parse of the file's row.
    pub open spec fn current_row(&self, i: int) -> Seq<Seq<char>> {
        match self.edits@[i] {
            Option::Some(f) => f.deep_view(),
            Option::None => parse_fields(
                decode_utf8(self.reader.row_text(i)),
                self.reader.delimiter as char,
            ),
        }
    }

    /// Whether reading row `i` succeeds: always for an edited row, and
    /// for the rest exactly when the stored bytes decode.
    pub open spec fn row_readable(&self, i: int) -> bool {
        self.edits@[i] is Some || valid_utf8(self.reader.row_text(i))
    }

    /// Create an editor from an existing reader, with no pending edits.
    pub fn new(reader: CsvReader) -> (r: CsvEditor)
        requires
            reader.wf(),
        ensures
            r.wf(),
            r.reader == reader,
            r.n_edits == 0,
            forall|k: int| 0 <= k < r.edits@.len() ==> r.edits@[k] is None,
    {
        let count = reader.row_count();
        let edits = none_edits(count);
        CsvEditor { reader, edits, n_edits: 0 }
    }

    /// Open a buffer for editing.
    pub fn open(data: Vec<u8>, path: String) -> (r: Result<CsvEditor, MassiveCsvError>)
        requires
            data@.len() < usize::MAX,
        ensures
            match r {
                Ok(ed) => {
                    &&& data@.len() > 0
                    &&& ed.wf()
                    &&& ed.n_edits == 0
                    &&& forall|k: int| 0 <= k < ed.edits@.len() ==> ed.edits@[k] is None
                    &&& ed.reader.data@ == data@
                    &&& ed.reader.path@ == path@
                    &&& ed.reader.delimiter == detect_spec(data@).spec_byte()
                    &&& valid_utf8(line_at(data@, 0))
                    &&& ed.reader.headers.deep_view() == parse_fields(
                        decode_utf8(line_at(data@, 0)),
                        ed.reader.delimiter as char,
                    )
                    &&& idx_matches(
                        ed.reader.line_index@,
                        index_spec(data@, data_start_spec(data@)),
                    )
                },
                Err(e) => {
                    ||| (data@.len() == 0 && e is EmptyFile)
                    ||| (data@.len() > 0 && !valid_utf8(line_at(data@, 0)) && e is InvalidUtf8)
                },
            },
    {
        match CsvReader::open(data, path) {
            Result::Ok(reader) => Result::Ok(CsvEditor::new(reader)),
            Result::Err(e) => Result::Err(e),
        }
    }

    /// The underlying reader.
    pub fn reader(&self) -> (r: &CsvReader)
        ensures
            r == self.reader,
    {
        &self.reader
    }

    /// Number of pending edits.
    pub fn edit_count(&self) -> (r: usize)
        ensures
            r == self.n_edits,
    {
        self.n_edits
    }

    /// Whether there are unsaved changes.
    pub fn has_changes(&self) -> (r: bool)
        ensures
            r == (self.n_edits > 0),
    {
        self.n_edits > 0
    }

    /// The current state of row `row`: the edited fields when the row
    /// has a pending edit, otherwise the parse of the file's row.
    pub fn get_row(&self, row: usize) -> (r: Result<Vec<String>, MassiveCsvError>)
        requires
            self.wf(),
        ensures
            row >= self.spec_row_count() ==> (r matches Err(MassiveCsvError::RowOutOfRange(a, b))
                && a == row && b == self.spec_row_count()),
            row < self.spec_row_count() && self.row_readable(row as int) ==> (r matches Ok(v)
                && v.deep_view() == self.current_row(row as int)),
            row < self.spec_row_count() && !self.row_readable(row as int) ==> (r matches Err(
                MassiveCsvError::InvalidUtf8(p),
            ) && p == self.reader.line_index@[row as int]),
    {
        if row < self.edits.len() {
            match &self.edits[row] {
                Option::Some(f) => {
                    return Result::Ok(clone_fields(f));
                },
                Option::None => {},
            }
        }
        self.reader.get_row(row)
    }

    /// Replace an entire row with new fields. The field count is not
    /// enforced; the save writes whatever is provided.
    pub fn set_row(&mut self, row: usize, fields: Vec<String>) -> (r: Result<(), MassiveCsvError>)
        requires
            old(self).wf(),
        ensures
            row >= old(self).spec_row_count() ==> (r matches Err(MassiveCsvError::RowOutOfRange(
                a,
                b,
            )) && a == row && b == old(self).spec_row_count() && *final(self) == *old(self)),
            row < old(self).spec_row_count() ==> {
                &&& r is Ok
                &&& final(self).wf()
                &&& final(self).reader == old(self).reader
                &&& final(self).edits@ == old(self).edits@.update(
                    row as int,
                    Option::Some(fields),
                )
            },
    {
        let count = self.reader.row_count();
        if row >= count {
            return Result::Err(MassiveCsvError::RowOutOfRange(row, count));
        }
        proof {
            lemma_count_edits_update(
                self.edits@,
                row as int,
                Option::Some(fields),
                self.edits@.len() as int,
            );
            if self.edits@[row as int] is None {
                lemma_count_edits_none(self.edits@, row as int, self.edits@.len() as int);
            }
        }
        let was_edited = self.edits[row].is_some();
        self.edits[row] = Option::Some(fields);
        if !was_edited {
            self.n_edits = self.n_edits + 1;
        }
        Result::Ok(())
    }

    /// Edit a single cell: read the row's current state, replace the
    /// column's value, and store the row as a pending edit.
    pub fn set_cell(&mut self, row: usize, col: usize, value: String) -> (r: Result<
        (),
        MassiveCsvError,
    >)
        requires
            old(self).wf(),
        ensures
            row >= old(self).spec_row_count() ==> (r matches Err(MassiveCsvError::RowOutOfRange(
                a,
                b,
            )) && a == row && b == old(self).spec_row_count() && *final(self) == *old(self)),
            row < old(self).spec_row_count() && !old(self).row_readable(row as int) ==> (r matches Err(
                MassiveCsvError::InvalidUtf8(p),
            ) && p == old(self).reader.line_index@[row as int] && *final(self) == *old(self)),
            row < old(self).spec_row_count() && old(self).row_readable(row as int) && col >= old(
                self,
            ).current_row(row as int).len() ==> (r matches Err(MassiveCsvError::ColumnNotFound(m))
                && m@ == "index "@ + dec_str(col as int) && *final(self) == *old(self)),
            row < old(self).spec_row_count() && old(self).row_readable(row as int) && col < old(
                self,
            ).current_row(row as int).len() ==> {
                &&& r is Ok
                &&& final(self).wf()
                &&& final(self).reader == old(self).reader
                &&& final(self).edits@.len() == old(self).edits@.len()
                &&& final(self).edits@[row as int] matches Some(f) && f.deep_view() == old(
                    self,
                ).current_row(row as int).update(col as int, value@)
                &&& forall|j: int|
                    0 <= j < old(self).edits@.len() && j != row ==> final(self).edits@[j] == old(
                        self,
                    ).edits@[j]
            },
    {
        let mut fields = match self.get_row(row) {
            Result::Ok(f) => f,
            Result::Err(e) => {
                return Result::Err(e);
            },
        };
        if col >= fields.len() {
            let mut msg = String::from_str("index ");
            let digits = usize_to_string(col);
            msg.append(digits.as_str());
            return Result::Err(MassiveCsvError::ColumnNotFound(msg));
        }
        let ghost fields_pre = fields.deep_view();
        fields[col] = value;
        let n_rows = self.edits.len();
        proof {
            lemma_count_edits_bound(self.edits@, self.edits@.len() as int);
            assert(self.n_edits <= n_rows);
            assert(fields.deep_view() =~~= fields_pre.update(col as int, value@));
            lemma_count_edits_update(
                self.edits@,
                row as int,
                Option::Some(fields),
                self.edits@.len() as int,
            );
            if self.edits@[row as int] is None {
                lemma_count_edits_none(self.edits@, row as int, self.edits@.len() as int);
            }
        }
        let was_edited = self.edits[row].is_some();
        self.edits[row] = Option::Some(fields);
        if !was_edited {
            self.n_edits = self.n_edits + 1;
        }
        Result::Ok(())
    }

    /// Revert a row to its original state; silent when the row has no
    /// pending edit or lies out of range.
    pub fn revert_row(&mut self, row: usize)
        requires
            old(self).wf(),
        ensures
            final(self).wf(),
            final(self).reader == old(self).reader,
            row < old(self).edits@.len() ==> final(self).edits@ == old(self).edits@.update(
                row as int,
                Option::<Vec<String>>::None,
            ),
            row >= old(self).edits@.len() ==> *final(self) == *old(self),
    {
        if row < self.edits.len() {
            proof {
                lemma_count_edits_update(
                    self.edits@,
                    row as int,
                    Option::None,
                    self.edits@.len() as int,
                );
                if self.edits@[row as int] is Some {
                    lemma_count_edits_some(self.edits@, row as int, self.edits@.len() as int);
                }
            }
            let was_edited = self.edits[row].is_some();
            self.edits[row] = Option::None;
            if was_edited {
                self.n_edits = self.n_edits - 1;
            }
        }
    }

    /// The bytes row `i` contributes to a save: the serialized pending
    /// edit, or the row's original text bytes, byte for byte.
    pub open spec fn row_out(&self, i: int) -> Seq<u8> {
        match self.edits@[i] {
            Option::Some(f) => encode_utf8(
                ser_fields(f.deep_view(), self.reader.delimiter as char),
            ),
            Option::None => self.reader.row_text(i),
        }
    }

    /// The serialized header line, line feed included.
    pub open spec fn header_out(&self) -> Seq<u8> {
        encode_utf8(ser_fields(self.reader.headers.deep_view(), self.reader.delimiter as char))
            + seq![NEWLINE_BYTE]
    }

    /// The file contents a save writes, up to (not including) row `k`.
    pub open spec fn render_upto(&self, k: int) -> Seq<u8>
        decreases k,
    {
        if k <= 0 {
            self.header_out()
        } else {
            self.render_upto(k - 1) + self.row_out(k - 1) + seq![NEWLINE_BYTE]
        }
    }

    /// The whole file contents a save writes.
    pub open spec fn render_spec(&self) -> Seq<u8> {
        self.render_upto(self.spec_row_count())
    }

    /// Whether a save can render: every row without a pending edit must
    /// decode, since its bytes are copied through as text.
    pub open spec fn render_ok(&self) -> bool {
        forall|i: int| 0 <= i < self.spec_row_count() ==> self.row_readable(i)
    }

    /// Render what a save would write: the header line, then every row
    /// with pending edits substituted and the rest copied byte for byte,
    /// each line-feed-terminated. Also returns the new row offset index.
    fn render_full(&self) -> (r: Result<(Vec<u8>, Vec<usize>), MassiveCsvError>)
        requires
            self.wf(),
        ensures
            match r {
                Ok(p) => {
                    &&& self.render_ok()
                    &&& p.0@ == self.render_spec()
                    &&& p.1@.len() == self.spec_row_count()
                    &&& forall|i: int|
                        0 <= i < p.1@.len() ==> p.1@[i] as int == self.render_upto(i).len()
                },
                Err(e) => !self.render_ok() && e is InvalidUtf8,
            },
    {
        let d = self.reader.delimiter;
        let header_line = serialize_row(&self.reader.headers, d);
        let mut out: Vec<u8> = header_line.as_str().as_bytes_vec();
        out.push(NEWLINE_BYTE);
        proof {
            assert(out@ =~= self.header_out());
            assert(self.render_upto(0) == self.header_out());
        }
        let count = self.reader.row_count();
        let mut idx: Vec<usize> = Vec::new();
        let mut i: usize = 0;
        while i < count
            invariant
                self.wf(),
                i <= count,
                count == self.spec_row_count(),
                d == self.reader.delimiter,
                out@ == self.render_upto(i as int),
                idx@.len() == i,
                forall|k: int| 0 <= k < i ==> idx@[k] as int == self.render_upto(k).len(),
                forall|k: int| 0 <= k < i ==> self.row_readable(k),
            decreases count - i,
        {
            let ghost base = out@;
            idx.push(out.len());
            match &self.edits[i] {
                Option::Some(f) => {
                    let line = serialize_row(f, d);
                    let lb = line.as_str().as_bytes_vec();
                    out.extend_from_slice(lb.as_slice());
                },
                Option::None => {
                    let start = self.reader.line_index[i];
                    let end = if i + 1 < count {
                        self.reader.line_index[i + 1]
                    } else {
                        self.reader.data.len()
                    };
                    let text = strip_line_ending(
                        slice_subrange(self.reader.data.as_slice(), start, end),
                    );
                    proof {
                        assert(text@ == self.reader.row_text(i as int));
                    }
                    match bytes_to_string(text.as_slice()) {
                        Option::Some(_) => {
                            out.extend_from_slice(text.as_slice());
                        },
                        Option::None => {
                            proof {
                                assert(!self.row_readable(i as int));
                            }
                            return Result::Err(MassiveCsvError::InvalidUtf8(start));
                        },
                    }
                },
            }
            out.push(NEWLINE_BYTE);
            proof {
                assert(out@ =~= base + self.row_out(i as int) + seq![NEWLINE_BYTE]);
            }
            i = i + 1;
        }
        Result::Ok((out, idx))
    }

    /// The bytes a save would write for the current state, without
    /// changing anything: callers that persist them to storage do so
    /// before committing the save.
    pub fn render_save(&self) -> (r: Result<Vec<u8>, MassiveCsvError>)
        requires
            self.wf(),
        ensures
            match r {
                Ok(b) => self.render_ok() && b@ == self.render_spec(),
                Err(e) => !self.render_ok() && e is InvalidUtf8,
            },
    {
        match self.render_full() {
            Result::Ok(p) => Result::Ok(p.0),
            Result::Err(e) => Result::Err(e),
        }
    }

    /// Apply all pending edits: render the new file contents, refresh
    /// the reader on them (keeping the headers, delimiter, and path, and
    /// indexing each written row), and clear the edit map. A no-op when
    /// nothing is pending; on failure the editor is unchanged.
    pub fn save(&mut self) -> (r: Result<(), MassiveCsvError>)
        requires
            old(self).wf(),
        ensures
            old(self).n_edits == 0 ==> (r is Ok && *final(self) == *old(self)),
            old(self).n_edits > 0 ==> match r {
                Ok(_) => {
                    &&& old(self).render_ok()
                    &&& final(self).wf()
                    &&& final(self).n_edits == 0
                    &&& forall|k: int|
                        0 <= k < final(self).edits@.len() ==> final(self).edits@[k] is None
                    &&& final(self).spec_row_count() == old(self).spec_row_count()
                    &&& final(self).reader.headers == old(self).reader.headers
                    &&& final(self).reader.delimiter == old(self).reader.delimiter
                    &&& final(self).reader.path == old(self).reader.path
                    &&& final(self).reader.data@ == old(self).render_spec()
                    &&& forall|i: int|
                        0 <= i < old(self).spec_row_count() ==> final(self).reader.row_slice(i)
                            == old(self).row_out(i) + seq![NEWLINE_BYTE]
                },
                Err(e) => *final(self) == *old(self) && !old(self).render_ok() && e is InvalidUtf8,
            },
    {
        if self.n_edits == 0 {
            return Result::Ok(());
        }
        let (bytes, idx) = match self.render_full() {
            Result::Ok(p) => p,
            Result::Err(e) => {
                return Result::Err(e);
            },
        };
        proof {
            assert forall|a: int, b: int| 0 <= a < b < idx@.len() implies (idx@[a] as int) < (
            idx@[b] as int) by {
                lemma_render_prefix(*self, a, b);
            }
            assert forall|a: int| 0 <= a < idx@.len() implies (idx@[a] as int) < bytes@.len() by {
                lemma_render_prefix(*self, a, self.spec_row_count());
            }
        }
        let count = self.edits.len();
        self.reader.data = bytes;
        self.reader.line_index = idx;
        self.edits = none_edits(count);
        self.n_edits = 0;
        proof {
            let pre = *old(self);
            assert forall|i: int| 0 <= i < pre.spec_row_count() implies self.reader.row_slice(i)
                == pre.row_out(i) + seq![NEWLINE_BYTE] by {
                lemma_render_prefix(pre, i + 1, pre.spec_row_count());
                let li = pre.render_upto(i).len() as int;
                let ei = pre.render_upto(i + 1).len() as int;
                assert(pre.render_upto(i + 1) == pre.render_upto(i) + pre.row_out(i) + seq![
                    NEWLINE_BYTE,
                ]);
                assert(self.reader.row_end(i) == ei);
                assert(self.reader.row_slice(i) =~= pre.render_upto(i + 1).subrange(li, ei));
                assert(pre.render_upto(i + 1).subrange(li, ei) =~= pre.row_out(i) + seq![
                    NEWLINE_BYTE,
                ]);
            }
        }
        Result::Ok(())
    }

    /// Discard every pending edit.
    pub fn revert_all(&mut self)
        requires
            old(self).wf(),
        ensures
            final(self).wf(),
            final(self).reader == old(self).reader,
            final(self).n_edits == 0,
            final(self).edits@.len() == old(self).edits@.len(),
            forall|k: int| 0 <= k < final(self).edits@.len() ==> final(self).edits@[k] is None,
    {
        let count = self.edits.len();
        self.edits = none_edits(count);
        self.n_edits = 0;
    }
}

} // verus!
