//! The searcher: the matcher and the extension filter of one run, bundled as
//! one immutable configuration, with the operations of a whole run.

use vstd::prelude::*;
use crate::collector::{collect_post, run, FileEntry};
use crate::errors::{ErrorKind, SearchError};
use crate::filter::{exts_of, ExtensionFilter};
use crate::matcher::{regex_ok, Matcher};
use crate::scanner::{result_wf, scan, scan_post, SearchResult};

verus! {

/// The read-only configuration of one run: the compiled pattern and the
/// extension filter, built once from the user's input.
pub struct FileSearcher {
    pub matcher: Matcher,
    pub filter: ExtensionFilter,
}

impl FileSearcher {
    /// Builds the searcher from the user's inputs: the pattern, the matching
    /// mode, the case flag, and the comma-separated extension list. An
    /// invalid regex pattern is rejected here, before any scanning begins.
    pub fn new(pattern: &str, use_regex: bool, ignore_case: bool, extensions: &str) -> (r: Result<
        FileSearcher,
        SearchError,
    >)
        ensures
            r is Ok <==> (!use_regex || regex_ok(pattern@, ignore_case)),
            r is Ok ==> {
                let s = r->Ok_0;
                &&& s.matcher.ignore_case == ignore_case
                &&& s.matcher.is_literal() == !use_regex
                &&& s.matcher.lit@ == Matcher::needle_of(pattern@, ignore_case)
                &&& s.filter.exts.deep_view() == exts_of(extensions@)
            },
            r is Err ==> r->Err_0.kind == ErrorKind::Pattern,
    {
        match Matcher::new(pattern, use_regex, ignore_case) {
            Ok(m) => Ok(
                FileSearcher { matcher: m, filter: ExtensionFilter::new(extensions) },
            ),
            Err(e) => Err(e),
        }
    }

    /// Scans the text of one file: one record for each line with at least
    /// one match, in line order.
    pub fn search_content(&self, file_path: &str, contents: &str) -> (r: Vec<SearchResult>)
        ensures
            scan_post(self.matcher, file_path@, contents@, r.deep_view()),
            forall|i: int| 0 <= i < r.deep_view().len() ==> result_wf(#[trigger] r.deep_view()[i]),
    {
        scan(&self.matcher, file_path, contents)
    }

    /// Whether the run scans the file at `path`.
    pub fn should_search_file(&self, path: &str) -> (r: bool)
        ensures
            r == self.filter.include_spec(path@),
    {
        self.filter.should_include(path)
    }

    /// Scans every candidate file and merges the per-file results, in file
    /// order; files that were filtered out or could not be read contribute
    /// nothing.
    pub fn search_files(&self, files: &Vec<FileEntry>) -> (r: Vec<SearchResult>)
        ensures
            collect_post(self.matcher, self.filter, files.deep_view(), r.deep_view()),
            forall|i: int| 0 <= i < r.deep_view().len() ==> result_wf(#[trigger] r.deep_view()[i]),
    {
        run(&self.matcher, &self.filter, files)
    }
}

} // verus!
