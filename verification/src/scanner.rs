//! The per-file scanner: applies the matcher to every line of one file's
//! text and records each line that matched.

use vstd::prelude::*;
use crate::matcher::{lit_spans, spans_sorted, Matcher};
use crate::text::{lines_of, split_lines};

verus! {

/// One matching line: the file it came from, its 1-based line number, its
/// text, and the byte spans where the pattern occurred. Never mutated once
/// recorded.
#[derive(Debug, Clone, PartialEq, Eq)]
pub struct SearchResult {
    pub file_path: String,
    pub line_number: usize,
    pub line: String,
    pub matches: Vec<(usize, usize)>,
}

/// The mathematical content of a `SearchResult`.
pub ghost struct ResultModel {
    pub file_path: Seq<char>,
    pub line_number: int,
    pub line: Seq<char>,
    pub matches: Seq<(usize, usize)>,
}

impl View for SearchResult {
    type V = ResultModel;

    open spec fn view(&self) -> ResultModel {
        ResultModel {
            file_path: self.file_path@,
            line_number: self.line_number as int,
            line: self.line@,
            matches: self.matches@,
        }
    }
}

impl DeepView for SearchResult {
    type V = ResultModel;

    open spec fn deep_view(&self) -> ResultModel {
        self.view()
    }
}

/// The invariant of every recorded line: at least one span, spans in
/// increasing start order, and a 1-based line number.
pub open spec fn result_wf(rm: ResultModel) -> bool {
    &&& rm.matches.len() > 0
    &&& spans_sorted(rm.matches)
    &&& rm.line_number >= 1
}

/// The records for one file, built from its lines and each line's spans: one
/// record per line with a non-empty span list, in line order, numbered from
/// `base`.
pub open spec fn build_results(
    path: Seq<char>,
    lines: Seq<Seq<char>>,
    spans: Seq<Seq<(usize, usize)>>,
    base: int,
) -> Seq<ResultModel>
    decreases lines.len(),
{
    if lines.len() == 0 {
        Seq::empty()
    } else {
        let head = if spans[0].len() > 0 {
            seq![
                ResultModel {
                    file_path: path,
                    line_number: base,
                    line: lines[0],
                    matches: spans[0],
                },
            ]
        } else {
            Seq::empty()
        };
        head + build_results(path, lines.skip(1), spans.skip(1), base + 1)
    }
}

/// What scanning one file's text yields: a record for each line the matcher
/// hit, in line order, each line's spans being what the matcher's contract
/// fixes for that line.
pub open spec fn scan_post(
    m: Matcher,
    path: Seq<char>,
    content: Seq<char>,
    out: Seq<ResultModel>,
) -> bool {
    exists|spans: Seq<Seq<(usize, usize)>>|
        {
            &&& spans.len() == lines_of(content).len()
            &&& (forall|i: int|
                0 <= i < spans.len() ==> m.found(lines_of(content)[i], #[trigger] spans[i]))
            &&& out == build_results(path, lines_of(content), spans, 1)
        }
}

/// The spans a literal matcher yields for each of the given lines.
pub open spec fn lit_line_spans(m: Matcher, lines: Seq<Seq<char>>) -> Seq<Seq<(usize, usize)>> {
    Seq::new(lines.len(), |i: int| lit_spans(m.search_bytes(lines[i]), m.lit@))
}

/// The scan of one file under a literal matcher, as a function of the
/// matcher, the path and the text.
pub open spec fn scan_spec(m: Matcher, path: Seq<char>, content: Seq<char>) -> Seq<ResultModel> {
    build_results(path, lines_of(content), lit_line_spans(m, lines_of(content)), 1)
}

/// With a literal matcher the scan of a file is a function of its inputs:
/// `scan_post` pins the output to `scan_spec`.
pub proof fn lemma_scan_post_literal(m: Matcher, path: Seq<char>, content: Seq<char>, out: Seq<
    ResultModel,
>)
    requires
        m.is_literal(),
        scan_post(m, path, content, out),
    ensures
        out == scan_spec(m, path, content),
{
    let lines = lines_of(content);
    let spans = choose|spans: Seq<Seq<(usize, usize)>>|
        {
            &&& spans.len() == lines_of(content).len()
            &&& (forall|i: int|
                0 <= i < spans.len() ==> m.found(lines_of(content)[i], #[trigger] spans[i]))
            &&& out == build_results(path, lines_of(content), spans, 1)
        };
    assert forall|i: int| 0 <= i < spans.len() implies spans[i] == lit_line_spans(m, lines)[i] by {
        assert(m.found(lines[i], spans[i]));
    }
    assert(spans =~= lit_line_spans(m, lines));
}

/// Lines without matches leave no records at all.
proof fn lemma_build_results_empty(
    path: Seq<char>,
    lines: Seq<Seq<char>>,
    spans: Seq<Seq<(usize, usize)>>,
    base: int,
)
    requires
        spans.len() == lines.len(),
        forall|i: int| 0 <= i < spans.len() ==> (#[trigger] spans[i]).len() == 0,
    ensures
        build_results(path, lines, spans, base) == Seq::<ResultModel>::empty(),
    decreases lines.len(),
{
    if lines.len() > 0 {
        assert forall|i: int| 0 <= i < spans.skip(1).len() implies (#[trigger] spans.skip(
            1,
        )[i]).len() == 0 by {
            assert(spans.skip(1)[i] == spans[i + 1]);
        }
        lemma_build_results_empty(path, lines.skip(1), spans.skip(1), base + 1);
        assert(build_results(path, lines, spans, base) =~= Seq::<ResultModel>::empty());
    }
}

/// A file in which the pattern never occurs contributes no records, and the
/// scan still succeeds.
pub proof fn lemma_scan_no_matches(
    m: Matcher,
    path: Seq<char>,
    content: Seq<char>,
    out: Seq<ResultModel>,
)
    requires
        m.is_literal(),
        scan_post(m, path, content, out),
        forall|i: int|
            0 <= i < lines_of(content).len() ==> lit_spans(
                m.search_bytes(#[trigger] lines_of(content)[i]),
                m.lit@,
            ).len() == 0,
    ensures
        out == Seq::<ResultModel>::empty(),
{
    lemma_scan_post_literal(m, path, content, out);
    let lines = lines_of(content);
    assert forall|i: int| 0 <= i < lines.len() implies (#[trigger] lit_line_spans(m, lines)[i]).len()
        == 0 by {
        assert(lit_line_spans(m, lines)[i] == lit_spans(m.search_bytes(lines[i]), m.lit@));
    }
    lemma_build_results_empty(path, lines, lit_line_spans(m, lines), 1);
}

/// Appending one line to a file appends at most one record, numbered after
/// all the others.
proof fn lemma_build_results_push(
    path: Seq<char>,
    lines: Seq<Seq<char>>,
    spans: Seq<Seq<(usize, usize)>>,
    l: Seq<char>,
    sp: Seq<(usize, usize)>,
    base: int,
)
    requires
        spans.len() == lines.len(),
    ensures
        build_results(path, lines.push(l), spans.push(sp), base) == build_results(
            path,
            lines,
            spans,
            base,
        ) + (if sp.len() > 0 {
            seq![
                ResultModel {
                    file_path: path,
                    line_number: base + lines.len(),
                    line: l,
                    matches: sp,
                },
            ]
        } else {
            Seq::<ResultModel>::empty()
        }),
    decreases lines.len(),
{
    let tailrec = if sp.len() > 0 {
        seq![
            ResultModel { file_path: path, line_number: base + lines.len(), line: l, matches: sp },
        ]
    } else {
        Seq::<ResultModel>::empty()
    };
    if lines.len() == 0 {
        assert(lines.push(l)[0] == l);
        assert(spans.push(sp)[0] == sp);
        assert(lines.push(l).skip(1) =~~= Seq::<Seq<char>>::empty());
        assert(spans.push(sp).skip(1) =~~= Seq::<Seq<(usize, usize)>>::empty());
        assert(build_results(
            path,
            Seq::<Seq<char>>::empty(),
            Seq::<Seq<(usize, usize)>>::empty(),
            base + 1,
        ) == Seq::<ResultModel>::empty());
        assert(build_results(path, lines.push(l), spans.push(sp), base) =~= build_results(
            path,
            lines,
            spans,
            base,
        ) + tailrec);
    } else {
        lemma_build_results_push(path, lines.skip(1), spans.skip(1), l, sp, base + 1);
        assert(lines.push(l).skip(1) =~~= lines.skip(1).push(l));
        assert(spans.push(sp).skip(1) =~~= spans.skip(1).push(sp));
        assert(lines.push(l)[0] == lines[0]);
        assert(spans.push(sp)[0] == spans[0]);
        assert(base + 1 + lines.skip(1).len() == base + lines.len());
        assert(build_results(path, lines.push(l), spans.push(sp), base) =~= build_results(
            path,
            lines,
            spans,
            base,
        ) + tailrec);
    }
}

/// Scans one file's text: applies the matcher to every line and returns one
/// record for each line with at least one match, in line order.
pub fn scan(m: &Matcher, file_path: &str, contents: &str) -> (r: Vec<SearchResult>)
    ensures
        scan_post(*m, file_path@, contents@, r.deep_view()),
        forall|i: int| 0 <= i < r.deep_view().len() ==> result_wf(#[trigger] r.deep_view()[i]),
{
    let lines = split_lines(contents);
    let mut out: Vec<SearchResult> = Vec::new();
    let ghost mut spans_acc: Seq<Seq<(usize, usize)>> = Seq::empty();
    let mut idx: usize = 0;
    proof {
        assert(lines.deep_view().take(0) =~~= Seq::<Seq<char>>::empty());
        assert(out.deep_view() =~~= build_results(file_path@, lines.deep_view().take(0), spans_acc, 1));
    }
    while idx < lines.len()
        invariant
            lines.deep_view() == lines_of(contents@),
            idx <= lines.len(),
            spans_acc.len() == idx,
            forall|i: int|
                0 <= i < idx ==> m.found(lines.deep_view()[i], #[trigger] spans_acc[i]),
            out.deep_view() == build_results(
                file_path@,
                lines.deep_view().take(idx as int),
                spans_acc,
                1,
            ),
            forall|i: int|
                0 <= i < out.deep_view().len() ==> result_wf(#[trigger] out.deep_view()[i]),
        decreases lines.len() - idx,
    {
        let line: &String = &lines[idx];
        let sp = m.find_matches(line.as_str());
        let ghost old_out = out.deep_view();
        let ghost old_spans = spans_acc;
        let ghost taken = lines.deep_view().take(idx as int);
        proof {
            spans_acc = spans_acc.push(sp@);
            lemma_build_results_push(
                file_path@,
                taken,
                old_spans,
                lines.deep_view()[idx as int],
                sp@,
                1,
            );
            assert(taken.push(lines.deep_view()[idx as int]) =~~= lines.deep_view().take(
                idx + 1,
            ));
        }
        if sp.len() > 0 {
            let rec = SearchResult {
                file_path: file_path.to_owned(),
                line_number: idx + 1,
                line: line.clone(),
                matches: sp,
            };
            proof {
                assert(rec@ == (ResultModel {
                    file_path: file_path@,
                    line_number: idx + 1 as int,
                    line: lines.deep_view()[idx as int],
                    matches: spans_acc[idx as int],
                }));
            }
            out.push(rec);
            proof {
                assert(out.deep_view() =~~= old_out.push(rec@));
                assert(out.deep_view() =~~= build_results(
                    file_path@,
                    lines.deep_view().take(idx + 1),
                    spans_acc,
                    1,
                ));
            }
        } else {
            proof {
                assert(out.deep_view() + Seq::<ResultModel>::empty() =~~= out.deep_view());
                assert(out.deep_view() =~~= build_results(
                    file_path@,
                    lines.deep_view().take(idx + 1),
                    spans_acc,
                    1,
                ));
            }
        }
        idx += 1;
    }
    proof {
        assert(lines.deep_view().take(lines.deep_view().len() as int) =~~= lines.deep_view());
        assert(out.deep_view() == build_results(file_path@, lines_of(contents@), spans_acc, 1));
        assert(scan_post(*m, file_path@, contents@, out.deep_view()));
    }
    out
}

} // verus!
