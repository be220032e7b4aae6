//! The pattern matcher: literal substring search, verified in full, and
//! regular-expression search through the regex engine.

use vstd::prelude::*;
use vstd::string::*;
use vstd::utf8::encode_utf8;
use crate::errors::{ErrorKind, SearchError};

verus! {

// --- the regex engine, taken on trust ---

#[verifier::external_type_specification]
#[verifier::external_body]
pub struct ExRegex(regex::Regex);

/// Whether the regex engine accepts `pat` as a pattern when compiled with
/// case-insensitivity `ci`. Compilation is deterministic, so acceptance is a
/// function of the pattern and the flag alone.
pub uninterp spec fn regex_ok(pat: Seq<char>, ci: bool) -> bool;

/// Relies on regex::RegexBuilder::build: it compiles the pattern with the
/// given case-insensitive flag, and succeeds or fails deterministically in
/// the pattern and the flag.
#[verifier::external_body]
fn compile_regex(pat: &str, ci: bool) -> (r: Result<regex::Regex, String>)
    ensures
        r is Ok <==> regex_ok(pat@, ci),
{
    regex::RegexBuilder::new(pat).case_insensitive(ci).build().map_err(|e| e.to_string())
}

/// Spans in strictly increasing start order, each start at or before its end.
pub open spec fn spans_sorted(spans: Seq<(usize, usize)>) -> bool {
    &&& forall|k: int| 0 <= k < spans.len() ==> (#[trigger] spans[k]).0 <= spans[k].1
    &&& forall|k: int| 0 <= k < spans.len() - 1 ==> (#[trigger] spans[k]).0 < spans[k + 1].0
}

/// Sorted spans that fit a line of `n` bytes and never overlap.
pub open spec fn spans_wf(spans: Seq<(usize, usize)>, n: int) -> bool {
    &&& spans_sorted(spans)
    &&& forall|k: int| 0 <= k < spans.len() ==> (#[trigger] spans[k]).1 <= n
    &&& forall|k: int| 0 <= k < spans.len() - 1 ==> (#[trigger] spans[k]).1 <= spans[k + 1].0
}

/// Relies on regex::Regex::find_iter: it yields the successive
/// non-overlapping matches of the line, left to right, as half-open byte
/// ranges into the line, never two at the same start.
#[verifier::external_body]
fn regex_find(re: &regex::Regex, line: &str) -> (r: Vec<(usize, usize)>)
    ensures
        spans_wf(r@, line.spec_bytes().len() as int),
{
    re.find_iter(line).map(|m| (m.start(), m.end())).collect()
}

/// The lowercase form of `s`, as `str::to_lowercase` computes it: a function
/// of the characters of `s` alone.
pub uninterp spec fn lower_of(s: Seq<char>) -> Seq<char>;

/// Relies on str::to_lowercase: the result depends on the input alone.
#[verifier::external_body]
fn lowercase(s: &str) -> (r: String)
    ensures
        r@ == lower_of(s@),
{
    s.to_lowercase()
}

// --- literal substring search, verified ---

/// True exactly when `pat` occurs in `hay` at byte position `i`.
pub open spec fn occurs_at(hay: Seq<u8>, pat: Seq<u8>, i: int) -> bool {
    &&& 0 <= i
    &&& i + pat.len() <= hay.len()
    &&& hay.subrange(i, i + pat.len() as int) == pat
}

/// Every occurrence of `pat` in `hay` at a position at or past `from`, in
/// increasing order, as half-open byte spans. The search resumes one byte
/// past each found start, so occurrences that overlap are each reported.
pub open spec fn lit_spans_from(hay: Seq<u8>, pat: Seq<u8>, from: int) -> Seq<(usize, usize)>
    decreases hay.len() - from + 1,
{
    if from < 0 || from + pat.len() > hay.len() {
        Seq::empty()
    } else if occurs_at(hay, pat, from) {
        seq![(from as usize, (from + pat.len()) as usize)] + lit_spans_from(hay, pat, from + 1)
    } else {
        lit_spans_from(hay, pat, from + 1)
    }
}

/// Every occurrence of `pat` in `hay`, in increasing order of start.
pub open spec fn lit_spans(hay: Seq<u8>, pat: Seq<u8>) -> Seq<(usize, usize)> {
    lit_spans_from(hay, pat, 0)
}

/// Compares `pat` against `hay` at offset `i`.
fn is_match_at(hay: &Vec<u8>, pat: &Vec<u8>, i: usize) -> (b: bool)
    requires
        i + pat@.len() <= hay@.len(),
        hay@.len() <= usize::MAX,
    ensures
        b == occurs_at(hay@, pat@, i as int),
{
    let ghost pl = pat@.len() as int;
    let mut j: usize = 0;
    while j < pat.len()
        invariant
            i + pl <= hay@.len() <= usize::MAX,
            pl == pat@.len(),
            j <= pl,
            forall|k: int| 0 <= k < j ==> hay@[i + k] == pat@[k],
        decreases pl - j,
    {
        if hay[i + j] != pat[j] {
            proof {
                assert(!occurs_at(hay@, pat@, i as int)) by {
                    if occurs_at(hay@, pat@, i as int) {
                        assert(hay@.subrange(i as int, i + pl)[j as int] == pat@[j as int]);
                    }
                }
            }
            return false;
        }
        j += 1;
    }
    proof {
        assert(hay@.subrange(i as int, i + pl) =~= pat@);
    }
    true
}

/// Finds every occurrence of `pat` in `hay`, left to right. After a match at
/// position `p`, the search resumes at `p + 1`, so overlapping occurrences
/// are each reported once, at distinct starts.
pub fn find_literal(hay: &Vec<u8>, pat: &Vec<u8>) -> (r: Vec<(usize, usize)>)
    ensures
        r@ == lit_spans(hay@, pat@),
        spans_sorted(r@),
{
    proof {
        assert(hay.len() == hay@.len());
        lemma_lit_spans_wf(hay@, pat@);
    }
    let mut r: Vec<(usize, usize)> = Vec::new();
    if pat.len() > hay.len() {
        proof {
            assert(lit_spans(hay@, pat@) =~= Seq::<(usize, usize)>::empty());
        }
        return r;
    }
    let bound = hay.len() - pat.len();
    let mut i: usize = 0;
    proof {
        assert(r@ + lit_spans_from(hay@, pat@, 0) =~= lit_spans(hay@, pat@));
    }
    loop
        invariant_except_break
            pat@.len() <= hay@.len() <= usize::MAX,
            bound == hay@.len() - pat@.len(),
            i <= bound,
            r@ + lit_spans_from(hay@, pat@, i as int) == lit_spans(hay@, pat@),
        ensures
            r@ == lit_spans(hay@, pat@),
        decreases bound - i,
    {
        let m = is_match_at(hay, pat, i);
        proof {
            assert(lit_spans_from(hay@, pat@, i as int) == if occurs_at(hay@, pat@, i as int) {
                seq![(i, (i + pat@.len()) as usize)] + lit_spans_from(hay@, pat@, i as int + 1)
            } else {
                lit_spans_from(hay@, pat@, i as int + 1)
            });
        }
        if m {
            r.push((i, i + pat.len()));
        }
        proof {
            assert(r@ + lit_spans_from(hay@, pat@, i as int + 1) =~= lit_spans(hay@, pat@));
        }
        if i == bound {
            proof {
                assert(lit_spans_from(hay@, pat@, i as int + 1) =~= Seq::<(usize, usize)>::empty());
                assert(r@ =~= lit_spans(hay@, pat@));
            }
            break;
        }
        i = i + 1;
    }
    r
}

/// Every span of `lit_spans_from` starts at or past `from`, ends exactly a
/// pattern length after its start and within the line, and the starts are
/// strictly increasing.
pub proof fn lemma_lit_spans_from_sorted(hay: Seq<u8>, pat: Seq<u8>, from: int)
    requires
        hay.len() <= usize::MAX,
    ensures
        forall|k: int| 0 <= k < lit_spans_from(hay, pat, from).len() ==> {
            let sp = #[trigger] lit_spans_from(hay, pat, from)[k];
            &&& from <= sp.0
            &&& sp.1 == sp.0 + pat.len()
            &&& sp.1 <= hay.len()
        },
        spans_sorted(lit_spans_from(hay, pat, from)),
    decreases hay.len() - from + 1,
{
    if from < 0 || from + pat.len() > hay.len() {
    } else {
        lemma_lit_spans_from_sorted(hay, pat, from + 1);
        let tail = lit_spans_from(hay, pat, from + 1);
        if occurs_at(hay, pat, from) {
            let head = (from as usize, (from + pat.len()) as usize);
            let cat = seq![head] + tail;
            let s = lit_spans_from(hay, pat, from);
            assert(s == cat);
            assert(cat[0] == head);
            assert forall|k: int| 1 <= k < s.len() implies s[k] == tail[k - 1] by {
                assert((seq![head] + tail)[k] == tail[k - 1]);
            }
            assert forall|k: int| 0 <= k < s.len() implies {
                let sp = #[trigger] s[k];
                &&& from <= sp.0
                &&& sp.1 == sp.0 + pat.len()
                &&& sp.1 <= hay.len()
            } by {
                if k > 0 {
                    assert(s[k] == tail[k - 1]);
                }
            }
            assert forall|k: int| 0 <= k < s.len() - 1 implies (#[trigger] s[k]).0 < s[k + 1].0 by {
                if k == 0 {
                    assert(s[1] == tail[0]);
                } else {
                    assert(s[k] == tail[k - 1]);
                    assert(s[k + 1] == tail[k]);
                }
            }
            assert(spans_sorted(s));
        }
    }
}

/// A span stands in `lit_spans_from` exactly for each position at or past
/// `from` where `pat` occurs.
proof fn lemma_lit_spans_from_complete(hay: Seq<u8>, pat: Seq<u8>, from: int, i: int)
    requires
        hay.len() <= usize::MAX,
        0 <= from,
        0 <= i,
        i + pat.len() <= usize::MAX,
    ensures
        lit_spans_from(hay, pat, from).contains(((i as usize), ((i + pat.len()) as usize))) <==> (
        from <= i && occurs_at(hay, pat, i)),
    decreases hay.len() - from + 1,
{
    let x = ((i as usize), ((i + pat.len()) as usize));
    if from + pat.len() > hay.len() {
        assert(!lit_spans_from(hay, pat, from).contains(x));
        if from <= i && occurs_at(hay, pat, i) {
            assert(i + pat.len() <= hay.len());
            assert(false);
        }
    } else {
        lemma_lit_spans_from_complete(hay, pat, from + 1, i);
        let tail = lit_spans_from(hay, pat, from + 1);
        if occurs_at(hay, pat, from) {
            let head = (from as usize, (from + pat.len()) as usize);
            let s = lit_spans_from(hay, pat, from);
            assert(s == seq![head] + tail);
            assert(s[0] == head);
            if i == from {
                assert(s.contains(x));
                assert(from <= i && occurs_at(hay, pat, i));
            } else {
                assert(x != head);
                if s.contains(x) {
                    let k = choose|k: int| 0 <= k < s.len() && s[k] == x;
                    assert(k > 0);
                    assert(s[k] == tail[k - 1]);
                    assert(tail.contains(x));
                }
                if tail.contains(x) {
                    let k = choose|k: int| 0 <= k < tail.len() && tail[k] == x;
                    assert(s[k + 1] == tail[k]);
                    assert(s.contains(x));
                }
            }
        } else {
            assert(lit_spans_from(hay, pat, from) == tail);
            if from <= i && occurs_at(hay, pat, i) {
                assert(i != from);
            }
        }
    }
}

/// The resume policy reports every occurrence: a span stands in the literal
/// search result exactly for each position where `pat` occurs in `hay`,
/// overlapping occurrences included, each once.
pub proof fn lemma_lit_spans_complete(hay: Seq<u8>, pat: Seq<u8>, i: int)
    requires
        hay.len() <= usize::MAX,
        0 <= i,
        i + pat.len() <= usize::MAX,
    ensures
        lit_spans(hay, pat).contains(((i as usize), ((i + pat.len()) as usize))) <==> occurs_at(
            hay,
            pat,
            i,
        ),
{
    lemma_lit_spans_from_complete(hay, pat, 0, i);
}

/// The spans of a literal search are sorted and lie within the searched line.
pub proof fn lemma_lit_spans_wf(hay: Seq<u8>, pat: Seq<u8>)
    requires
        hay.len() <= usize::MAX,
    ensures
        spans_sorted(lit_spans(hay, pat)),
        forall|k: int| 0 <= k < lit_spans(hay, pat).len() ==> (#[trigger] lit_spans(hay, pat)[k]).1
            <= hay.len(),
{
    lemma_lit_spans_from_sorted(hay, pat, 0);
}

// --- the matcher ---

/// A compiled search pattern: a literal byte needle, or a regular expression
/// handed to the regex engine. Immutable once constructed.
pub struct Matcher {
    /// The literal needle: the pattern's bytes, lowercased first when
    /// `ignore_case`.
    pub lit: Vec<u8>,
    /// The compiled expression, when in regex mode.
    pub re: Option<regex::Regex>,
    /// Whether matching ignores case.
    pub ignore_case: bool,
}

impl Matcher {
    /// Literal (substring) mode, as opposed to regex mode.
    pub open spec fn is_literal(&self) -> bool {
        self.re is None
    }

    /// The bytes a literal matcher built from pattern `pat` searches for.
    pub open spec fn needle_of(pat: Seq<char>, ignore_case: bool) -> Seq<u8> {
        if ignore_case {
            encode_utf8(lower_of(pat))
        } else {
            encode_utf8(pat)
        }
    }

    /// The bytes of `line` a literal matcher searches in: the line itself,
    /// lowercased first when matching case-insensitively.
    pub open spec fn search_bytes(&self, line: Seq<char>) -> Seq<u8> {
        if self.ignore_case {
            encode_utf8(lower_of(line))
        } else {
            encode_utf8(line)
        }
    }

    /// What `find_matches` returns for `line`: in literal mode, exactly the
    /// occurrence spans of the needle in the searched bytes; in regex mode,
    /// the engine's matches, as sorted non-overlapping spans in the line.
    pub open spec fn found(&self, line: Seq<char>, spans: Seq<(usize, usize)>) -> bool {
        if self.is_literal() {
            spans == lit_spans(self.search_bytes(line), self.lit@)
        } else {
            spans_wf(spans, encode_utf8(line).len() as int)
        }
    }

    /// Builds a matcher. In regex mode the pattern goes to the engine, and an
    /// invalid pattern is rejected here, before any scanning begins.
    pub fn new(pattern: &str, use_regex: bool, ignore_case: bool) -> (r: Result<Matcher, SearchError>)
        ensures
            r is Ok <==> (!use_regex || regex_ok(pattern@, ignore_case)),
            r is Ok ==> {
                let m = r->Ok_0;
                &&& m.ignore_case == ignore_case
                &&& m.is_literal() == !use_regex
                &&& m.lit@ == Matcher::needle_of(pattern@, ignore_case)
            },
            r is Err ==> r->Err_0.kind == ErrorKind::Pattern,
    {
        let lit: Vec<u8> = if ignore_case {
            let low = lowercase(pattern);
            low.as_str().as_bytes_vec()
        } else {
            pattern.as_bytes_vec()
        };
        if use_regex {
            match compile_regex(pattern, ignore_case) {
                Ok(re) => Ok(Matcher { lit, re: Some(re), ignore_case }),
                Err(msg) => Err(SearchError { kind: ErrorKind::Pattern, message: msg }),
            }
        } else {
            Ok(Matcher { lit, re: None, ignore_case })
        }
    }

    /// All matches of the pattern on one line, as byte spans.
    pub fn find_matches(&self, line: &str) -> (r: Vec<(usize, usize)>)
        ensures
            self.found(line@, r@),
            spans_sorted(r@),
    {
        match &self.re {
            Some(re) => regex_find(re, line),
            None => {
                if self.ignore_case {
                    let low = lowercase(line);
                    let bytes = low.as_str().as_bytes_vec();
                    find_literal(&bytes, &self.lit)
                } else {
                    let bytes = line.as_bytes_vec();
                    find_literal(&bytes, &self.lit)
                }
            },
        }
    }
}

} // verus!
