//! The file-extension filter: which files a scan looks at.

use vstd::prelude::*;
use vstd::string::*;
use crate::text::{
    cons_line,
    find_last,
    last_index_of,
    lemma_cons_line_assoc,
    lemma_cons_line_close,
    lemma_cons_line_nil,
    lemma_last_index_of_bounds,
    str_eq,
    trim,
    trim_spec,
};

verus! {

/// The pieces of `s` between commas, in order, empty pieces kept; a text with
/// no comma is one piece.
pub open spec fn split_commas(s: Seq<char>) -> Seq<Seq<char>>
    decreases s.len(),
{
    if s.len() == 0 {
        seq![Seq::<char>::empty()]
    } else if s[0] == ',' {
        seq![Seq::<char>::empty()] + split_commas(s.skip(1))
    } else {
        cons_line(seq![s[0]], split_commas(s.skip(1)))
    }
}

/// The entries of the comma-separated extension list `s`, each trimmed.
pub open spec fn exts_of(s: Seq<char>) -> Seq<Seq<char>> {
    split_commas(s).map_values(|p: Seq<char>| trim_spec(p))
}

/// `split_commas` always yields at least one piece.
proof fn lemma_split_commas_nonempty(s: Seq<char>)
    ensures
        split_commas(s).len() > 0,
    decreases s.len(),
{
    if s.len() == 0 {
    } else if s[0] == ',' {
    } else {
        lemma_split_commas_nonempty(s.skip(1));
    }
}

/// The file name of `path`: what follows the final '/', or all of `path`
/// when there is none.
pub open spec fn file_name_of(path: Seq<char>) -> Seq<char> {
    path.skip(last_index_of(path, '/') + 1)
}

/// The extension of `path`: what follows the final '.' of its file name, or
/// nothing when the file name has no '.'.
pub open spec fn ext_of(path: Seq<char>) -> Option<Seq<char>> {
    let name = file_name_of(path);
    let k = last_index_of(name, '.');
    if k < 0 {
        None
    } else {
        Some(name.skip(k + 1))
    }
}

/// The substring of `path` after the final '.' of its file name, when the
/// file name has one.
pub fn extension_of(path: &str) -> (r: Option<String>)
    ensures
        r is Some ==> ext_of(path@) == Some(r->Some_0@),
        r is None ==> ext_of(path@) is None,
{
    proof {
        lemma_last_index_of_bounds(path@, '/');
    }
    let n = path.unicode_len();
    let start: usize = match find_last(path, '/') {
        Some(k) => k + 1,
        None => 0,
    };
    let name = path.substring_char(start, n);
    proof {
        assert(name@ =~= file_name_of(path@));
        lemma_last_index_of_bounds(name@, '.');
    }
    let nl = name.unicode_len();
    match find_last(name, '.') {
        None => None,
        Some(k) => {
            let e = name.substring_char(k + 1, nl);
            proof {
                assert(e@ =~= file_name_of(path@).skip(last_index_of(name@, '.') + 1));
            }
            Some(e.to_owned())
        },
    }
}

/// A set of file-extension entries, or the wildcard that admits every file.
/// Immutable once constructed.
pub struct ExtensionFilter {
    /// The entries of the user's comma-separated list, each trimmed. The
    /// entry "*" is the wildcard.
    pub exts: Vec<String>,
}

impl ExtensionFilter {
    /// The filter admits every file: some entry is the wildcard "*".
    pub open spec fn is_wildcard(&self) -> bool {
        exists|i: int| 0 <= i < self.exts@.len() && self.exts@[i]@ == "*"@
    }

    /// Some entry equals the extension `e`.
    pub open spec fn has_ext(&self, e: Seq<char>) -> bool {
        exists|i: int| 0 <= i < self.exts@.len() && self.exts@[i]@ == e
    }

    /// Whether a scan looks at `path`: always under the wildcard, otherwise
    /// exactly when the path's extension is an entry of the filter; a file
    /// without an extension is excluded.
    pub open spec fn include_spec(&self, path: Seq<char>) -> bool {
        self.is_wildcard() || match ext_of(path) {
            Some(e) => self.has_ext(e),
            None => false,
        }
    }

    /// Parses a comma-separated extension list, trimming each entry.
    pub fn new(arg: &str) -> (f: ExtensionFilter)
        ensures
            f.exts.deep_view() == exts_of(arg@),
    {
        let n = arg.unicode_len();
        let mut pieces: Vec<String> = Vec::new();
        let mut start: usize = 0;
        let mut i: usize = 0;
        proof {
            assert(arg@.skip(0) =~= arg@);
            assert(arg@.subrange(0, 0) =~= Seq::<char>::empty());
            lemma_split_commas_nonempty(arg@);
            lemma_cons_line_nil(split_commas(arg@));
        }
        while i < n
            invariant
                n == arg@.len(),
                start <= i <= n,
                pieces.deep_view() + cons_line(
                    arg@.subrange(start as int, i as int),
                    split_commas(arg@.skip(i as int)),
                ) == split_commas(arg@),
            decreases n - i,
        {
            let ghost cur = arg@.subrange(start as int, i as int);
            let ghost rest = arg@.skip(i as int);
            proof {
                assert(rest[0] == arg@[i as int]);
                assert(rest.skip(1) =~= arg@.skip(i + 1));
            }
            let c = arg.get_char(i);
            if c == ',' {
                let piece = arg.substring_char(start, i);
                let line = piece.to_owned();
                proof {
                    assert(split_commas(rest) == seq![Seq::<char>::empty()] + split_commas(
                        arg@.skip(i + 1),
                    ));
                    lemma_cons_line_close(cur, split_commas(arg@.skip(i + 1)));
                }
                let ghost old_p = pieces.deep_view();
                pieces.push(line);
                proof {
                    assert(pieces.deep_view() =~~= old_p.push(cur));
                    assert(arg@.subrange(i + 1, i + 1) =~= Seq::<char>::empty());
                    lemma_cons_line_nil(split_commas(arg@.skip(i + 1)));
                    lemma_split_commas_nonempty(arg@.skip(i + 1));
                    assert(pieces.deep_view() + cons_line(
                        arg@.subrange(i + 1, i + 1),
                        split_commas(arg@.skip(i + 1)),
                    ) =~~= old_p + (seq![cur] + split_commas(arg@.skip(i + 1))));
                    assert(old_p + (seq![cur] + split_commas(arg@.skip(i + 1))) =~~= old_p
                        + cons_line(cur, split_commas(rest)));
                }
                start = i + 1;
                i = i + 1;
            } else {
                proof {
                    assert(split_commas(rest) == cons_line(
                        seq![rest[0]],
                        split_commas(rest.skip(1)),
                    ));
                    lemma_split_commas_nonempty(rest.skip(1));
                    lemma_cons_line_assoc(cur, seq![arg@[i as int]], split_commas(arg@.skip(i + 1)));
                    assert(cur + seq![arg@[i as int]] =~= arg@.subrange(start as int, i + 1));
                }
                i = i + 1;
            }
        }
        let ghost cur = arg@.subrange(start as int, n as int);
        proof {
            assert(arg@.skip(n as int) =~= Seq::<char>::empty());
            assert(split_commas(arg@.skip(n as int)) == seq![Seq::<char>::empty()]);
            assert(cur + Seq::<char>::empty() =~= cur);
            assert(cons_line(cur, seq![Seq::<char>::empty()]) =~~= seq![cur]);
        }
        let piece = arg.substring_char(start, n);
        let line = piece.to_owned();
        let ghost old_p = pieces.deep_view();
        pieces.push(line);
        proof {
            assert(pieces.deep_view() =~~= old_p.push(cur));
            assert(pieces.deep_view() =~~= split_commas(arg@));
        }
        let mut exts: Vec<String> = Vec::new();
        let mut k: usize = 0;
        while k < pieces.len()
            invariant
                k <= pieces@.len(),
                exts.deep_view().len() == k,
                forall|j: int|
                    0 <= j < k ==> exts.deep_view()[j] == trim_spec(
                        #[trigger] pieces.deep_view()[j],
                    ),
            decreases pieces@.len() - k,
        {
            let t = trim(pieces[k].as_str());
            let ghost old_e = exts.deep_view();
            exts.push(t);
            proof {
                assert(exts.deep_view() =~~= old_e.push(trim_spec(pieces.deep_view()[k as int])));
            }
            k += 1;
        }
        proof {
            assert(exts.deep_view() =~~= exts_of(arg@));
        }
        ExtensionFilter { exts }
    }

    /// Whether a scan looks at the file at `path`.
    pub fn should_include(&self, path: &str) -> (r: bool)
        ensures
            r == self.include_spec(path@),
    {
        let mut i: usize = 0;
        while i < self.exts.len()
            invariant
                i <= self.exts@.len(),
                forall|k: int| 0 <= k < i ==> (#[trigger] self.exts@[k])@ != "*"@,
            decreases self.exts@.len() - i,
        {
            if str_eq(self.exts[i].as_str(), "*") {
                return true;
            }
            i += 1;
        }
        match extension_of(path) {
            None => false,
            Some(e) => {
                let mut j: usize = 0;
                while j < self.exts.len()
                    invariant
                        j <= self.exts@.len(),
                        ext_of(path@) == Some(e@),
                        forall|k: int| 0 <= k < j ==> (#[trigger] self.exts@[k])@ != e@,
                    decreases self.exts@.len() - j,
                {
                    if str_eq(self.exts[j].as_str(), e.as_str()) {
                        proof {
                            assert(self.exts@[j as int]@ == e@);
                            assert(self.has_ext(e@));
                        }
                        return true;
                    }
                    j += 1;
                }
                false
            },
        }
    }
}

} // verus!
