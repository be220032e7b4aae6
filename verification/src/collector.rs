//! The collector: filters the candidate files, scans each one, and merges
//! the per-file results into one result set.

use vstd::prelude::*;
use vstd::multiset::Multiset;
use vstd::seq_lib::group_to_multiset_ensures;
use crate::filter::ExtensionFilter;
use crate::matcher::Matcher;
use crate::scanner::{
    lemma_scan_post_literal,
    result_wf,
    scan,
    scan_post,
    scan_spec,
    ResultModel,
    SearchResult,
};

verus! {

/// One candidate file: its path, and its text or nothing when the file could
/// not be read or decoded as text.
#[derive(Debug, Clone, PartialEq, Eq)]
pub struct FileEntry {
    pub path: String,
    pub content: Option<String>,
}

/// The mathematical content of a `FileEntry`.
pub ghost struct EntryModel {
    pub path: Seq<char>,
    pub content: Option<Seq<char>>,
}

impl View for FileEntry {
    type V = EntryModel;

    open spec fn view(&self) -> EntryModel {
        EntryModel {
            path: self.path@,
            content: match self.content {
                Option::Some(c) => Option::Some(c@),
                Option::None => Option::None,
            },
        }
    }
}

impl DeepView for FileEntry {
    type V = EntryModel;

    open spec fn deep_view(&self) -> EntryModel {
        self.view()
    }
}

/// What one file contributes to the result set: nothing when it was filtered
/// out or unreadable, otherwise what scanning its text yields. A failing
/// file never affects the rest of the run.
pub open spec fn file_block(
    m: Matcher,
    f: ExtensionFilter,
    e: EntryModel,
    out: Seq<ResultModel>,
) -> bool {
    match e.content {
        Option::None => out == Seq::<ResultModel>::empty(),
        Option::Some(c) => {
            if f.include_spec(e.path) {
                scan_post(m, e.path, c, out)
            } else {
                out == Seq::<ResultModel>::empty()
            }
        },
    }
}

/// What collecting over `files` yields: the concatenation, in file order, of
/// each file's contribution.
pub open spec fn collect_post(
    m: Matcher,
    f: ExtensionFilter,
    files: Seq<EntryModel>,
    out: Seq<ResultModel>,
) -> bool {
    exists|blocks: Seq<Seq<ResultModel>>|
        {
            &&& blocks.len() == files.len()
            &&& (forall|i: int|
                0 <= i < files.len() ==> file_block(m, f, files[i], #[trigger] blocks[i]))
            &&& out == blocks.flatten()
        }
}

/// Runs the whole collection: filters the candidate files, scans each
/// surviving one, and appends each file's results in turn. A file whose
/// content is missing is skipped with no effect on the others.
pub fn run(m: &Matcher, f: &ExtensionFilter, files: &Vec<FileEntry>) -> (r: Vec<SearchResult>)
    ensures
        collect_post(*m, *f, files.deep_view(), r.deep_view()),
        forall|i: int| 0 <= i < r.deep_view().len() ==> result_wf(#[trigger] r.deep_view()[i]),
{
    let mut out: Vec<SearchResult> = Vec::new();
    let ghost mut blocks: Seq<Seq<ResultModel>> = Seq::empty();
    let mut i: usize = 0;
    proof {
        assert(Seq::<Seq<ResultModel>>::empty().flatten() == Seq::<ResultModel>::empty());
        assert(out.deep_view() =~~= blocks.flatten());
    }
    while i < files.len()
        invariant
            i <= files@.len(),
            blocks.len() == i,
            forall|k: int|
                0 <= k < i ==> file_block(*m, *f, files.deep_view()[k], #[trigger] blocks[k]),
            out.deep_view() == blocks.flatten(),
            forall|k: int|
                0 <= k < out.deep_view().len() ==> result_wf(#[trigger] out.deep_view()[k]),
        decreases files@.len() - i,
    {
        let entry: &FileEntry = &files[i];
        let mut block: Vec<SearchResult> = Vec::new();
        if f.should_include(entry.path.as_str()) {
            match &entry.content {
                Some(c) => {
                    block = scan(m, entry.path.as_str(), c.as_str());
                },
                None => {},
            }
        }
        let ghost bdv = block.deep_view();
        let ghost old_blocks = blocks;
        let ghost old_out = out.deep_view();
        proof {
            blocks = blocks.push(bdv);
            if block@.len() == 0 {
                assert(bdv =~~= Seq::<ResultModel>::empty());
            }
            assert(file_block(*m, *f, files.deep_view()[i as int], bdv));
            old_blocks.lemma_flatten_push(bdv);
        }
        out.append(&mut block);
        proof {
            assert(out.deep_view() =~~= old_out + bdv);
            assert(out.deep_view() == blocks.flatten());
        }
        i += 1;
    }
    proof {
        assert(collect_post(*m, *f, files.deep_view(), out.deep_view()));
    }
    out
}

/// What one file contributes under a literal matcher, as a function.
pub open spec fn block_of(m: Matcher, f: ExtensionFilter, e: EntryModel) -> Seq<ResultModel> {
    match e.content {
        Option::None => Seq::empty(),
        Option::Some(c) => {
            if f.include_spec(e.path) {
                scan_spec(m, e.path, c)
            } else {
                Seq::empty()
            }
        },
    }
}

/// With a literal matcher, `file_block` pins a file's contribution.
proof fn lemma_file_block_literal(m: Matcher, f: ExtensionFilter, e: EntryModel, out: Seq<
    ResultModel,
>)
    requires
        m.is_literal(),
        file_block(m, f, e, out),
    ensures
        out == block_of(m, f, e),
{
    match e.content {
        Option::None => {},
        Option::Some(c) => {
            if f.include_spec(e.path) {
                lemma_scan_post_literal(m, e.path, c, out);
            }
        },
    }
}

/// A file that could not be read contributes nothing: a result set collected
/// over files of which the `k`-th is unreadable is, unchanged, a result set
/// for the other files alone. The failing file never affects the rest of the
/// run.
pub proof fn lemma_failure_isolation(
    m: Matcher,
    f: ExtensionFilter,
    files: Seq<EntryModel>,
    out: Seq<ResultModel>,
    k: int,
)
    requires
        0 <= k < files.len(),
        files[k].content is None,
        collect_post(m, f, files, out),
    ensures
        collect_post(m, f, files.remove(k), out),
{
    let blocks = choose|blocks: Seq<Seq<ResultModel>>|
        {
            &&& blocks.len() == files.len()
            &&& (forall|i: int|
                0 <= i < files.len() ==> file_block(m, f, files[i], #[trigger] blocks[i]))
            &&& out == blocks.flatten()
        };
    assert(file_block(m, f, files[k], blocks[k]));
    assert(blocks[k] == Seq::<ResultModel>::empty());
    let rb = blocks.remove(k);
    let rf = files.remove(k);
    assert forall|i: int| 0 <= i < rf.len() implies file_block(m, f, rf[i], #[trigger] rb[i]) by {
        if i < k {
            assert(rf[i] == files[i]);
            assert(rb[i] == blocks[i]);
        } else {
            assert(rf[i] == files[i + 1]);
            assert(rb[i] == blocks[i + 1]);
        }
    }
    assert(blocks =~~= blocks.take(k) + (seq![blocks[k]] + blocks.skip(k + 1)));
    vstd::seq_lib::lemma_flatten_concat(blocks.take(k), seq![blocks[k]] + blocks.skip(k + 1));
    assert((seq![blocks[k]] + blocks.skip(k + 1)).drop_first() =~~= blocks.skip(k + 1));
    assert((seq![blocks[k]] + blocks.skip(k + 1)).first() == blocks[k]);
    assert((seq![blocks[k]] + blocks.skip(k + 1)).flatten() == blocks[k] + blocks.skip(
        k + 1,
    ).flatten());
    assert(rb =~~= blocks.take(k) + blocks.skip(k + 1));
    vstd::seq_lib::lemma_flatten_concat(blocks.take(k), blocks.skip(k + 1));
    assert(blocks[k] + blocks.skip(k + 1).flatten() =~= blocks.skip(k + 1).flatten());
    assert(rb.flatten() == blocks.flatten());
    assert(collect_post(m, f, rf, out));
}

/// With a literal matcher, collection is a function of its inputs: any two
/// result sets collected over the same files are the same, records and order
/// alike. Scanning an unchanged tree twice yields the same results.
pub proof fn lemma_collect_deterministic(
    m: Matcher,
    f: ExtensionFilter,
    files: Seq<EntryModel>,
    out1: Seq<ResultModel>,
    out2: Seq<ResultModel>,
)
    requires
        m.is_literal(),
        collect_post(m, f, files, out1),
        collect_post(m, f, files, out2),
    ensures
        out1 == out2,
{
    let b1 = choose|blocks: Seq<Seq<ResultModel>>|
        {
            &&& blocks.len() == files.len()
            &&& (forall|i: int|
                0 <= i < files.len() ==> file_block(m, f, files[i], #[trigger] blocks[i]))
            &&& out1 == blocks.flatten()
        };
    let b2 = choose|blocks: Seq<Seq<ResultModel>>|
        {
            &&& blocks.len() == files.len()
            &&& (forall|i: int|
                0 <= i < files.len() ==> file_block(m, f, files[i], #[trigger] blocks[i]))
            &&& out2 == blocks.flatten()
        };
    assert forall|i: int| 0 <= i < files.len() implies b1[i] == b2[i] by {
        lemma_file_block_literal(m, f, files[i], b1[i]);
        lemma_file_block_literal(m, f, files[i], b2[i]);
    }
    assert(b1 =~= b2);
}

/// The multiset of records over a sequence of per-file blocks.
pub open spec fn blocks_msum(blocks: Seq<Seq<ResultModel>>) -> Multiset<ResultModel>
    decreases blocks.len(),
{
    if blocks.len() == 0 {
        Multiset::empty()
    } else {
        blocks[0].to_multiset().add(blocks_msum(blocks.skip(1)))
    }
}

/// Concatenation adds the multisets of records.
proof fn lemma_to_multiset_concat(a: Seq<ResultModel>, b: Seq<ResultModel>)
    ensures
        (a + b).to_multiset() == a.to_multiset().add(b.to_multiset()),
    decreases b.len(),
{
    broadcast use group_to_multiset_ensures;

    if b.len() == 0 {
        assert(a + b =~= a);
        assert(b.to_multiset() =~= Multiset::<ResultModel>::empty());
        assert(a.to_multiset().add(b.to_multiset()) =~= a.to_multiset());
    } else {
        lemma_to_multiset_concat(a, b.drop_last());
        assert(a + b =~= (a + b.drop_last()).push(b.last()));
        assert(b =~= b.drop_last().push(b.last()));
        assert((a + b).to_multiset() =~= a.to_multiset().add(b.to_multiset()));
    }
}

/// Flattening the blocks yields exactly their summed multiset of records.
proof fn lemma_flatten_msum(blocks: Seq<Seq<ResultModel>>)
    ensures
        blocks.flatten().to_multiset() == blocks_msum(blocks),
    decreases blocks.len(),
{
    broadcast use group_to_multiset_ensures;

    if blocks.len() == 0 {
        assert(blocks.flatten() == Seq::<ResultModel>::empty());
        assert(blocks.flatten().to_multiset() =~= Multiset::<ResultModel>::empty());
    } else {
        lemma_flatten_msum(blocks.drop_first());
        assert(blocks.drop_first() =~~= blocks.skip(1));
        assert(blocks.flatten() == blocks.first() + blocks.drop_first().flatten());
        lemma_to_multiset_concat(blocks[0], blocks.skip(1).flatten());
        assert(blocks.first() == blocks[0]);
    }
}

/// The multiset of records over `files` under a literal matcher.
pub open spec fn files_msum(m: Matcher, f: ExtensionFilter, files: Seq<EntryModel>) -> Multiset<
    ResultModel,
>
    decreases files.len(),
{
    if files.len() == 0 {
        Multiset::empty()
    } else {
        block_of(m, f, files[0]).to_multiset().add(files_msum(m, f, files.skip(1)))
    }
}

/// Blocks that are each file's pinned contribution sum to `files_msum`.
proof fn lemma_blocks_files_msum(
    m: Matcher,
    f: ExtensionFilter,
    files: Seq<EntryModel>,
    blocks: Seq<Seq<ResultModel>>,
)
    requires
        blocks.len() == files.len(),
        forall|i: int| 0 <= i < files.len() ==> #[trigger] blocks[i] == block_of(m, f, files[i]),
    ensures
        blocks_msum(blocks) == files_msum(m, f, files),
    decreases files.len(),
{
    if files.len() == 0 {
    } else {
        assert forall|i: int| 0 <= i < files.skip(1).len() implies #[trigger] blocks.skip(1)[i]
            == block_of(m, f, files.skip(1)[i]) by {
            assert(blocks.skip(1)[i] == blocks[i + 1]);
            assert(files.skip(1)[i] == files[i + 1]);
        }
        lemma_blocks_files_msum(m, f, files.skip(1), blocks.skip(1));
        assert(blocks[0] == block_of(m, f, files[0]));
    }
}

/// Taking one file out in the middle takes its contribution out of the sum.
proof fn lemma_files_msum_remove(m: Matcher, f: ExtensionFilter, files: Seq<EntryModel>, k: int)
    requires
        0 <= k < files.len(),
    ensures
        files_msum(m, f, files) == block_of(m, f, files[k]).to_multiset().add(
            files_msum(m, f, files.remove(k)),
        ),
    decreases k,
{
    if k == 0 {
        assert(files.remove(0) =~~= files.skip(1));
    } else {
        lemma_files_msum_remove(m, f, files.skip(1), k - 1);
        assert(files.skip(1)[k - 1] == files[k]);
        assert(files.remove(k)[0] == files[0]);
        assert(files.remove(k).skip(1) =~~= files.skip(1).remove(k - 1));
        let b0 = block_of(m, f, files[0]).to_multiset();
        let bk = block_of(m, f, files[k]).to_multiset();
        let rest = files_msum(m, f, files.skip(1).remove(k - 1));
        assert(files_msum(m, f, files) == b0.add(bk.add(rest)));
        assert(files_msum(m, f, files.remove(k)) == b0.add(rest));
        assert(b0.add(bk.add(rest)) =~= bk.add(b0.add(rest)));
    }
}

/// Rearranging the files leaves the summed multiset unchanged.
proof fn lemma_files_msum_permutation(
    m: Matcher,
    f: ExtensionFilter,
    files1: Seq<EntryModel>,
    files2: Seq<EntryModel>,
)
    requires
        files1.to_multiset() == files2.to_multiset(),
    ensures
        files_msum(m, f, files1) == files_msum(m, f, files2),
    decreases files1.len(),
{
    broadcast use group_to_multiset_ensures;

    if files1.len() == 0 {
        assert(files1.to_multiset().len() == files1.len());
        assert(files2.to_multiset().len() == files2.len());
        assert(files2.len() == 0);
    } else {
        let e = files1[0];
        assert(files1.contains(e));
        assert(files2.to_multiset().count(e) > 0);
        assert(files2.contains(e));
        let j = choose|j: int| 0 <= j < files2.len() && files2[j] == e;
        lemma_files_msum_remove(m, f, files2, j);
        lemma_files_msum_remove(m, f, files1, 0);
        assert(files1.remove(0).to_multiset() =~= files1.to_multiset().remove(e));
        assert(files2.remove(j).to_multiset() =~= files2.to_multiset().remove(e));
        lemma_files_msum_permutation(m, f, files1.remove(0), files2.remove(j));
    }
}

/// Processing the same files in another order changes only the order of the
/// records: two result sets collected with a literal matcher over files that
/// are a rearrangement of each other hold the same multiset of records.
pub proof fn lemma_collect_order_irrelevant(
    m: Matcher,
    f: ExtensionFilter,
    files1: Seq<EntryModel>,
    files2: Seq<EntryModel>,
    out1: Seq<ResultModel>,
    out2: Seq<ResultModel>,
)
    requires
        m.is_literal(),
        files1.to_multiset() == files2.to_multiset(),
        collect_post(m, f, files1, out1),
        collect_post(m, f, files2, out2),
    ensures
        out1.to_multiset() == out2.to_multiset(),
{
    let b1 = choose|blocks: Seq<Seq<ResultModel>>|
        {
            &&& blocks.len() == files1.len()
            &&& (forall|i: int|
                0 <= i < files1.len() ==> file_block(m, f, files1[i], #[trigger] blocks[i]))
            &&& out1 == blocks.flatten()
        };
    let b2 = choose|blocks: Seq<Seq<ResultModel>>|
        {
            &&& blocks.len() == files2.len()
            &&& (forall|i: int|
                0 <= i < files2.len() ==> file_block(m, f, files2[i], #[trigger] blocks[i]))
            &&& out2 == blocks.flatten()
        };
    assert forall|i: int| 0 <= i < files1.len() implies #[trigger] b1[i] == block_of(
        m,
        f,
        files1[i],
    ) by {
        lemma_file_block_literal(m, f, files1[i], b1[i]);
    }
    assert forall|i: int| 0 <= i < files2.len() implies #[trigger] b2[i] == block_of(
        m,
        f,
        files2[i],
    ) by {
        lemma_file_block_literal(m, f, files2[i], b2[i]);
    }
    lemma_flatten_msum(b1);
    lemma_flatten_msum(b2);
    lemma_blocks_files_msum(m, f, files1, b1);
    lemma_blocks_files_msum(m, f, files2, b2);
    lemma_files_msum_permutation(m, f, files1, files2);
}

} // verus!
