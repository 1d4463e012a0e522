//! Random-access reading, search, and in-place editing of large delimited
//! text files (CSV-family), built around a row offset index over the raw
//! bytes, with quoting-aware parsing and an edit-tracking layer whose save
//! path renders the new file contents in full.

use vstd::prelude::*;

pub mod editor;
pub mod error;
pub mod format;
pub mod parser;
pub mod reader;
pub mod searcher;
pub mod text;

pub use editor::CsvEditor;
pub use error::MassiveCsvError;
pub use parser::Delimiter;
pub use reader::CsvReader;
pub use searcher::SearchOptions;
pub use searcher::SearchResult;

use searcher::find_col;
use searcher::resolved_col;
use searcher::results_agree;
use searcher::search_spec;

verus! {

/// Search re-exported at the crate root; see [`searcher::search`].
pub fn search(reader: &CsvReader, query: &str, options: &SearchOptions) -> (r: Result<
    Vec<SearchResult>,
    MassiveCsvError,
>)
    requires
        reader.wf(),
    ensures
        ({
            let hs = reader.headers.deep_view();
            let col = resolved_col(hs, options.column);
            match r {
                Ok(v) => {
                    &&& (options.column matches Some(c) ==> find_col(hs, c@) < hs.len())
                    &&& results_agree(
                        v@,
                        search_spec(
                            *reader,
                            query@,
                            options.case_insensitive,
                            col,
                            options.max_results as int,
                        ),
                    )
                },
                Err(e) => {
                    &&& (options.column matches Some(c) && find_col(hs, c@) >= hs.len() && (
                    e matches MassiveCsvError::ColumnNotFound(m) && m@ == c@))
                },
            }
        }),
{
    searcher::search(reader, query, options)
}

} // verus!

