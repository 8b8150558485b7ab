//! The traversal engine: a lazily materialized node tree over the file
//! catalog, and the iterative, stack-bounded depth-first walk that detects
//! cycles. Nodes hold indices — into the catalog for their file and into the
//! node arena for their parent and children — so one shared table owns every
//! record and every alias sees its `processed` flag the moment it flips.

use vstd::prelude::*;
use crate::bytes::{copy_bytes, seq_views};
use crate::file_info::{FileInfo, FileInfoView};
use crate::fsdata::{FsData, FsEntryView};
use crate::project::{
    catalog_view, count_processed, get_file_model, lemma_catalog_bound, lemma_count_bounds,
    lemma_count_extend, lemma_count_mark, lemma_distinct_indices_bound,
    lemma_get_file_model_frame, ModuleView, Project,
};
use crate::report::{has_path, CycleReport};
use crate::{RunError, RunErrorView};

verus! {

/// What resolving a whole token list does: each token resolved in order
/// against the growing catalog, unresolved tokens dropped, and the catalog
/// indices of the resolved files collected in token order.
pub open spec fn resolve_all_model(
    files: Seq<FileInfoView>,
    ms: Seq<ModuleView>,
    fs: Seq<FsEntryView>,
    tokens: Seq<Seq<u8>>,
    from: Seq<u8>,
) -> Result<(Seq<FileInfoView>, Seq<int>), RunErrorView>
    decreases tokens.len(),
{
    if tokens.len() == 0 {
        Ok((files, Seq::empty()))
    } else {
        match resolve_all_model(files, ms, fs, tokens.drop_last(), from) {
            Err(e) => Err(e),
            Ok((f1, idxs)) => match get_file_model(f1, ms, fs, tokens.last(), from) {
                Err(e) => Err(e),
                Ok((f2, None)) => Ok((f2, idxs)),
                Ok((f2, Some(i))) => Ok((f2, idxs.push(i))),
            },
        }
    }
}

/// Resolving a token list only appends unprocessed records, and every
/// collected index lies in the final catalog.
pub proof fn lemma_resolve_all_frame(
    files: Seq<FileInfoView>,
    ms: Seq<ModuleView>,
    fs: Seq<FsEntryView>,
    tokens: Seq<Seq<u8>>,
    from: Seq<u8>,
)
    ensures
        match resolve_all_model(files, ms, fs, tokens, from) {
            Ok((f2, idxs)) => files.len() <= f2.len() && (forall|k: int|
                0 <= k < files.len() ==> f2[k] == files[k]) && (forall|k: int|
                files.len() <= k < f2.len() ==> !f2[k].processed) && (forall|k: int|
                0 <= k < idxs.len() ==> 0 <= #[trigger] idxs[k] < f2.len()),
            Err(_) => !crate::file_info::fs_parseable(fs, crate::file_info::module_names(ms)),
        },
    decreases tokens.len(),
{
    if tokens.len() > 0 {
        lemma_resolve_all_frame(files, ms, fs, tokens.drop_last(), from);
        match resolve_all_model(files, ms, fs, tokens.drop_last(), from) {
            Err(_) => {},
            Ok((f1, idxs)) => {
                lemma_get_file_model_frame(f1, ms, fs, tokens.last(), from);
            },
        }
    }
}

/// One position of the traversal tree: the file it stands for, its parent,
/// its children once materialized, and the files from the root down to it.
#[derive(Debug)]
pub struct Node {
    /// Index of this node's file in the catalog.
    pub file_info: usize,
    /// Index of the parent node in the arena; the root has none.
    pub prev: Option<usize>,
    /// Indices of the child nodes, once materialized — at most once.
    pub children: Option<Vec<usize>>,
    /// Catalog indices of the files from the root node to this one.
    pub node_path: Vec<usize>,
}

/// One node is sound: its file index is in range, its path extends its
/// parent's by its own file, and its children, if materialized, are arena
/// positions that point back to it.
pub open spec fn node_wf(nodes: Seq<Node>, i: int, files_len: int) -> bool {
    &&& nodes[i].file_info < files_len
    &&& match nodes[i].prev {
        Some(p) => p < i && nodes[i].node_path@ == nodes[p as int].node_path@.push(
            nodes[i].file_info,
        ),
        None => nodes[i].node_path@ == seq![nodes[i].file_info],
    }
    &&& forall|k: int| 0 <= k < nodes[i].node_path@.len() ==> nodes[i].node_path@[k] < files_len
    &&& match nodes[i].children {
        Some(cs) => forall|k: int|
            0 <= k < cs@.len() ==> cs@[k] < nodes.len() && i < cs@[k] && nodes[cs@[k] as int].prev
                == Some(i as usize),
        None => true,
    }
}

/// The whole arena is sound, and only its first node is a root.
pub open spec fn nodes_wf(nodes: Seq<Node>, files_len: int) -> bool {
    &&& forall|i: int| 0 <= i < nodes.len() ==> #[trigger] node_wf(nodes, i, files_len)
    &&& forall|i: int| 1 <= i < nodes.len() ==> (#[trigger] nodes[i].prev) is Some
}

/// The absolute paths of the files along a node path.
pub open spec fn path_paths(node_path: Seq<usize>, files: Seq<FileInfoView>) -> Seq<Seq<u8>> {
    Seq::new(node_path.len(), |k: int| files[node_path[k] as int].abs_path)
}

/// The file names of the files along a node path — the readable form.
pub open spec fn path_names(node_path: Seq<usize>, files: Seq<FileInfoView>) -> Seq<Seq<u8>> {
    Seq::new(node_path.len(), |k: int| files[node_path[k] as int].file_name)
}

/// No two elements are equal.
pub open spec fn distinct_seq(s: Seq<Seq<u8>>) -> bool {
    forall|i: int, j: int| 0 <= i < j < s.len() ==> s[i] != s[j]
}

/// A recorded readable path genuinely closes a cycle at its terminus: it
/// walks at least one edge, ends at the terminus name, and carries that name
/// a second time earlier on.
pub open spec fn cycle_path(name: Seq<u8>, p: Seq<Seq<u8>>) -> bool {
    &&& p.len() >= 2
    &&& p[p.len() - 1] == name
    &&& exists|i: int| 0 <= i < p.len() - 1 && p[i] == name
}

/// A terminus name belongs to a file that pulls something in: some catalog
/// record bears the name and has at least one include token — a file with
/// no extracted tokens never closes a cycle.
pub open spec fn terminus_has_includes(name: Seq<u8>, files: Seq<FileInfoView>) -> bool {
    exists|fi: int|
        0 <= fi < files.len() && files[fi].file_name == name && files[fi].includes.len() >= 1
}

/// Ghost image of one traversal-tree position, as the walk model sees it.
#[verifier::ext_equal]
pub ghost struct NodeModel {
    pub file: int,
    pub prev: Option<int>,
    pub children: Option<Seq<int>>,
    pub path: Seq<int>,
}

/// The whole state of the walk between two steps: the catalog, the node
/// tree, the position, and the report so far.
#[verifier::ext_equal]
pub ghost struct WalkState {
    pub files: Seq<FileInfoView>,
    pub nodes: Seq<NodeModel>,
    pub current: int,
    pub report: Seq<crate::report::ReportEntryView>,
}

/// The record with its processed flag raised.
pub open spec fn marked(v: FileInfoView) -> FileInfoView {
    FileInfoView { processed: true, ..v }
}

/// The node tree after materializing children under `parent`: one new node
/// per resolved catalog index, in token order, each carrying the parent's
/// path extended by its own file.
pub open spec fn append_children(nodes: Seq<NodeModel>, parent: int, idxs: Seq<int>) -> Seq<
    NodeModel,
> {
    let base = nodes.len() as int;
    nodes.update(
        parent,
        NodeModel { children: Some(Seq::new(idxs.len(), |k: int| base + k)), ..nodes[parent] },
    ) + Seq::new(
        idxs.len(),
        |k: int|
            NodeModel {
                file: idxs[k],
                prev: Some(parent),
                children: None,
                path: nodes[parent].path.push(idxs[k]),
            },
    )
}

/// The first child at or after `k` whose file is not yet processed.
pub open spec fn first_unproc(
    cs: Seq<int>,
    nodes: Seq<NodeModel>,
    files: Seq<FileInfoView>,
    k: int,
) -> Option<int>
    decreases cs.len() - k,
{
    if k < 0 || k >= cs.len() {
        None
    } else if !files[nodes[cs[k]].file].processed {
        Some(cs[k])
    } else {
        first_unproc(cs, nodes, files, k + 1)
    }
}

/// The absolute paths of the files along a model path.
pub open spec fn model_paths(path: Seq<int>, files: Seq<FileInfoView>) -> Seq<Seq<u8>> {
    Seq::new(path.len(), |k: int| files[path[k]].abs_path)
}

/// The file names of the files along a model path.
pub open spec fn model_names(path: Seq<int>, files: Seq<FileInfoView>) -> Seq<Seq<u8>> {
    Seq::new(path.len(), |k: int| files[path[k]].file_name)
}

/// What one iteration of the traversal loop does from a given state.
pub ghost enum StepResult {
    /// The root's file is processed: the walk is complete at this state.
    Done,
    /// One action taken: the state afterwards.
    Next(WalkState),
    /// A fatal materialization failure aborts the walk.
    Fail(RunErrorView),
}

/// One step of the §4.4 loop, verbatim: a processed current node pops or
/// completes; an unmaterialized node is sealed when tokenless, else its
/// children are materialized; else the first unprocessed child either
/// closes a cycle — its file sealed, its readable path recorded — or is
/// descended into.
#[verifier::opaque]
pub open spec fn step(s: WalkState, ms: Seq<ModuleView>, fs: Seq<FsEntryView>) -> StepResult {
    let n = s.nodes[s.current];
    if s.files[n.file].processed {
        match n.prev {
            None => StepResult::Done,
            Some(p) => StepResult::Next(WalkState { current: p, ..s }),
        }
    } else {
        match n.children {
            None => {
                if s.files[n.file].includes.len() == 0 {
                    StepResult::Next(
                        WalkState { files: s.files.update(n.file, marked(s.files[n.file])), ..s },
                    )
                } else {
                    match resolve_all_model(
                        s.files,
                        ms,
                        fs,
                        s.files[n.file].includes,
                        s.files[n.file].module,
                    ) {
                        Err(e) => StepResult::Fail(e),
                        Ok((f2, idxs)) => StepResult::Next(
                            WalkState {
                                files: f2,
                                nodes: append_children(s.nodes, s.current, idxs),
                                ..s
                            },
                        ),
                    }
                }
            },
            Some(cs) => match first_unproc(cs, s.nodes, s.files, 0) {
                None => StepResult::Next(
                    WalkState { files: s.files.update(n.file, marked(s.files[n.file])), ..s },
                ),
                Some(ch) => {
                    let c = s.nodes[ch];
                    if !distinct_seq(model_paths(c.path, s.files)) {
                        StepResult::Next(
                            WalkState {
                                files: s.files.update(c.file, marked(s.files[c.file])),
                                report: crate::report::report_insert(
                                    s.report,
                                    s.files[c.path[c.path.len() - 1]].file_name,
                                    model_names(c.path, s.files),
                                ),
                                ..s
                            },
                        )
                    } else {
                        StepResult::Next(WalkState { current: ch, ..s })
                    }
                },
            },
        }
    }
}

/// The walk run to completion from `s`: the terminal state or the failure;
/// exhausted fuel yields nothing, and any sufficient fuel gives the same
/// answer.
#[verifier::opaque]
pub open spec fn walk(
    s: WalkState,
    ms: Seq<ModuleView>,
    fs: Seq<FsEntryView>,
    fuel: nat,
) -> Option<Result<WalkState, RunErrorView>>
    decreases fuel,
{
    match step(s, ms, fs) {
        StepResult::Done => Some(Ok(s)),
        StepResult::Fail(e) => Some(Err(e)),
        StepResult::Next(s2) => if fuel == 0 {
            None
        } else {
            walk(s2, ms, fs, (fuel - 1) as nat)
        },
    }
}

/// The walk from `s` can complete with outcome `o`.
pub open spec fn walk_reaches(
    s: WalkState,
    ms: Seq<ModuleView>,
    fs: Seq<FsEntryView>,
    o: Result<WalkState, RunErrorView>,
) -> bool {
    exists|fuel: nat| walk(s, ms, fs, fuel) == Some(o)
}

/// The state a traversal starts from: one root node over the catalog, an
/// empty report.
pub open spec fn init_walk_state(files: Seq<FileInfoView>, root: int) -> WalkState {
    WalkState {
        files,
        nodes: seq![NodeModel { file: root, prev: None, children: None, path: seq![root] }],
        current: 0,
        report: Seq::empty(),
    }
}

/// More fuel never changes a completed walk's answer.
pub proof fn lemma_walk_mono(
    s: WalkState,
    ms: Seq<ModuleView>,
    fs: Seq<FsEntryView>,
    f1: nat,
    f2: nat,
)
    requires
        f1 <= f2,
        walk(s, ms, fs, f1) is Some,
    ensures
        walk(s, ms, fs, f2) == walk(s, ms, fs, f1),
    decreases f1,
{
    reveal(walk);
    match step(s, ms, fs) {
        StepResult::Done => {},
        StepResult::Fail(_) => {},
        StepResult::Next(s2) => {
            lemma_walk_mono(s2, ms, fs, (f1 - 1) as nat, (f2 - 1) as nat);
        },
    }
}

/// The walk's outcome is unique: any two completions from one state agree —
/// so a contract naming one completion pins the result entirely.
pub proof fn lemma_walk_deterministic(
    s: WalkState,
    ms: Seq<ModuleView>,
    fs: Seq<FsEntryView>,
    o1: Result<WalkState, RunErrorView>,
    o2: Result<WalkState, RunErrorView>,
)
    requires
        walk_reaches(s, ms, fs, o1),
        walk_reaches(s, ms, fs, o2),
    ensures
        o1 == o2,
{
    let f1 = choose|f: nat| walk(s, ms, fs, f) == Some(o1);
    let f2 = choose|f: nat| walk(s, ms, fs, f) == Some(o2);
    if f1 <= f2 {
        lemma_walk_mono(s, ms, fs, f1, f2);
    } else {
        lemma_walk_mono(s, ms, fs, f2, f1);
    }
}

/// One step preserves what the walk can reach.
proof fn lemma_reaches_step(s: WalkState, s2: WalkState, ms: Seq<ModuleView>, fs: Seq<FsEntryView>)
    requires
        step(s, ms, fs) == StepResult::Next(s2),
    ensures
        forall|o: Result<WalkState, RunErrorView>|
            walk_reaches(s, ms, fs, o) <==> walk_reaches(s2, ms, fs, o),
{
    reveal(walk);
    assert forall|o: Result<WalkState, RunErrorView>|
        walk_reaches(s, ms, fs, o) implies walk_reaches(s2, ms, fs, o) by {
        let f = choose|f: nat| walk(s, ms, fs, f) == Some(o);
        assert(f > 0);
        assert(walk(s2, ms, fs, (f - 1) as nat) == Some(o));
    }
    assert forall|o: Result<WalkState, RunErrorView>|
        walk_reaches(s2, ms, fs, o) implies walk_reaches(s, ms, fs, o) by {
        let f = choose|f: nat| walk(s2, ms, fs, f) == Some(o);
        assert(walk(s, ms, fs, f + 1) == Some(o));
    }
}

/// The running equivalence with the start state, moved across one step.
proof fn lemma_equiv_advance(
    s0: WalkState,
    sa: WalkState,
    sb: WalkState,
    ms: Seq<ModuleView>,
    fs: Seq<FsEntryView>,
)
    requires
        forall|o: Result<WalkState, RunErrorView>|
            #[trigger] walk_reaches(s0, ms, fs, o) <==> walk_reaches(sa, ms, fs, o),
        step(sa, ms, fs) == StepResult::Next(sb),
    ensures
        forall|o: Result<WalkState, RunErrorView>|
            #[trigger] walk_reaches(s0, ms, fs, o) <==> walk_reaches(sb, ms, fs, o),
{
    lemma_reaches_step(sa, sb, ms, fs);
    assert forall|o: Result<WalkState, RunErrorView>|
        #[trigger] walk_reaches(s0, ms, fs, o) <==> walk_reaches(sb, ms, fs, o) by {
        assert(walk_reaches(sa, ms, fs, o) <==> walk_reaches(sb, ms, fs, o));
    }
}

/// The step taken from a processed root position: the walk is complete.
proof fn lemma_step_done(s: WalkState, ms: Seq<ModuleView>, fs: Seq<FsEntryView>)
    requires
        s.files[s.nodes[s.current].file].processed,
        s.nodes[s.current].prev is None,
    ensures
        step(s, ms, fs) == StepResult::Done,
{
    reveal(step);
}

/// The step taken from a processed inner position: back to the parent.
proof fn lemma_step_pop(s: WalkState, ms: Seq<ModuleView>, fs: Seq<FsEntryView>, p: int)
    requires
        s.files[s.nodes[s.current].file].processed,
        s.nodes[s.current].prev == Some(p),
    ensures
        step(s, ms, fs) == StepResult::Next(WalkState { current: p, ..s }),
{
    reveal(step);
}

/// The step taken at an unmaterialized, tokenless position: seal the file.
proof fn lemma_step_leaf(s: WalkState, ms: Seq<ModuleView>, fs: Seq<FsEntryView>)
    requires
        !s.files[s.nodes[s.current].file].processed,
        s.nodes[s.current].children is None,
        s.files[s.nodes[s.current].file].includes.len() == 0,
    ensures
        step(s, ms, fs) == StepResult::Next(
            WalkState {
                files: s.files.update(
                    s.nodes[s.current].file,
                    marked(s.files[s.nodes[s.current].file]),
                ),
                ..s
            },
        ),
{
    reveal(step);
}

/// The step taken at an unmaterialized position with tokens: materialize,
/// or fail as the resolution fails.
proof fn lemma_step_mat(s: WalkState, ms: Seq<ModuleView>, fs: Seq<FsEntryView>)
    requires
        !s.files[s.nodes[s.current].file].processed,
        s.nodes[s.current].children is None,
        s.files[s.nodes[s.current].file].includes.len() != 0,
    ensures
        match resolve_all_model(
            s.files,
            ms,
            fs,
            s.files[s.nodes[s.current].file].includes,
            s.files[s.nodes[s.current].file].module,
        ) {
            Err(e) => step(s, ms, fs) == StepResult::Fail(e),
            Ok((f2, idxs)) => step(s, ms, fs) == StepResult::Next(
                WalkState { files: f2, nodes: append_children(s.nodes, s.current, idxs), ..s },
            ),
        },
{
    reveal(step);
}

/// The step taken when every child is processed: seal the file.
proof fn lemma_step_seal(s: WalkState, ms: Seq<ModuleView>, fs: Seq<FsEntryView>)
    requires
        !s.files[s.nodes[s.current].file].processed,
        s.nodes[s.current].children matches Some(cs) && first_unproc(cs, s.nodes, s.files, 0)
            is None,
    ensures
        step(s, ms, fs) == StepResult::Next(
            WalkState {
                files: s.files.update(
                    s.nodes[s.current].file,
                    marked(s.files[s.nodes[s.current].file]),
                ),
                ..s
            },
        ),
{
    reveal(step);
}

/// The step taken when the first unprocessed child repeats a file: seal the
/// child's file and record the readable path.
proof fn lemma_step_cycle(s: WalkState, ms: Seq<ModuleView>, fs: Seq<FsEntryView>, ch: int)
    requires
        !s.files[s.nodes[s.current].file].processed,
        s.nodes[s.current].children matches Some(cs) && first_unproc(cs, s.nodes, s.files, 0)
            == Some(ch),
        !distinct_seq(model_paths(s.nodes[ch].path, s.files)),
    ensures
        step(s, ms, fs) == StepResult::Next(
            WalkState {
                files: s.files.update(s.nodes[ch].file, marked(s.files[s.nodes[ch].file])),
                report: crate::report::report_insert(
                    s.report,
                    s.files[s.nodes[ch].path[s.nodes[ch].path.len() - 1]].file_name,
                    model_names(s.nodes[ch].path, s.files),
                ),
                ..s
            },
        ),
{
    reveal(step);
}

/// The step taken when the first unprocessed child repeats nothing: descend.
proof fn lemma_step_descend(s: WalkState, ms: Seq<ModuleView>, fs: Seq<FsEntryView>, ch: int)
    requires
        !s.files[s.nodes[s.current].file].processed,
        s.nodes[s.current].children matches Some(cs) && first_unproc(cs, s.nodes, s.files, 0)
            == Some(ch),
        distinct_seq(model_paths(s.nodes[ch].path, s.files)),
    ensures
        step(s, ms, fs) == StepResult::Next(WalkState { current: ch, ..s }),
{
    reveal(step);
}

/// A found first-unprocessed child is what the model's scan finds.
proof fn lemma_first_unproc_at(
    cs: Seq<int>,
    nodes: Seq<NodeModel>,
    files: Seq<FileInfoView>,
    k: int,
)
    requires
        0 <= k < cs.len(),
        !files[nodes[cs[k]].file].processed,
        forall|m: int| 0 <= m < k ==> files[nodes[#[trigger] cs[m]].file].processed,
    ensures
        first_unproc(cs, nodes, files, 0) == Some(cs[k]),
{
    lemma_first_unproc_from(cs, nodes, files, 0, k);
}

proof fn lemma_first_unproc_from(
    cs: Seq<int>,
    nodes: Seq<NodeModel>,
    files: Seq<FileInfoView>,
    j: int,
    k: int,
)
    requires
        0 <= j <= k < cs.len(),
        !files[nodes[cs[k]].file].processed,
        forall|m: int| j <= m < k ==> files[nodes[#[trigger] cs[m]].file].processed,
    ensures
        first_unproc(cs, nodes, files, j) == Some(cs[k]),
    decreases k - j,
{
    if j < k {
        lemma_first_unproc_from(cs, nodes, files, j + 1, k);
    }
}

/// All children processed means the model's scan finds none.
proof fn lemma_first_unproc_none(
    cs: Seq<int>,
    nodes: Seq<NodeModel>,
    files: Seq<FileInfoView>,
    j: int,
)
    requires
        0 <= j,
        forall|m: int| j <= m < cs.len() ==> files[nodes[#[trigger] cs[m]].file].processed,
    ensures
        first_unproc(cs, nodes, files, j) is None,
    decreases cs.len() - j,
{
    if j < cs.len() {
        lemma_first_unproc_none(cs, nodes, files, j + 1);
    }
}

/// The model image of one arena node.
pub open spec fn abs_node(n: Node) -> NodeModel {
    NodeModel {
        file: n.file_info as int,
        prev: match n.prev {
            Some(p) => Some(p as int),
            None => None,
        },
        children: match n.children {
            Some(cs) => Some(Seq::new(cs@.len(), |k: int| cs@[k] as int)),
            None => None,
        },
        path: Seq::new(n.node_path@.len(), |k: int| n.node_path@[k] as int),
    }
}

/// The model image of the whole arena.
pub open spec fn abs_nodes(nodes: Seq<Node>) -> Seq<NodeModel> {
    Seq::new(nodes.len(), |i: int| abs_node(nodes[i]))
}

/// When every child's file is processed in the arena, the model's scan of
/// the same children finds none either.
proof fn lemma_abs_scan_none(nodes: Seq<Node>, current: int, cat: Seq<FileInfoView>)
    requires
        0 <= current < nodes.len(),
        nodes[current].children matches Some(cs) && (forall|k: int|
            0 <= k < cs@.len() ==> cs@[k] < nodes.len()) && (forall|k: int|
            0 <= k < cs@.len() ==> cat[nodes[#[trigger] cs@[k] as int].file_info as int].processed),
    ensures
        abs_nodes(nodes)[current].children matches Some(csm) && first_unproc(
            csm,
            abs_nodes(nodes),
            cat,
            0,
        ) is None,
{
    let cs = nodes[current].children.unwrap();
    let csm = abs_nodes(nodes)[current].children.unwrap();
    assert(csm =~= Seq::new(cs@.len(), |m: int| cs@[m] as int));
    assert forall|m: int|
        0 <= m < csm.len() implies cat[abs_nodes(nodes)[#[trigger] csm[m]].file].processed by {
        assert(csm[m] == cs@[m] as int);
        assert(abs_nodes(nodes)[csm[m]] == abs_node(nodes[cs@[m] as int]));
        assert(cat[nodes[cs@[m] as int].file_info as int].processed);
    }
    lemma_first_unproc_none(csm, abs_nodes(nodes), cat, 0);
}

/// The first unprocessed child the arena's scan finds is what the model's
/// scan finds.
proof fn lemma_abs_scan_at(
    nodes: Seq<Node>,
    current: int,
    cat: Seq<FileInfoView>,
    ch: usize,
    k: int,
)
    requires
        0 <= current < nodes.len(),
        nodes[current].children matches Some(cs) && (forall|m: int|
            0 <= m < cs@.len() ==> cs@[m] < nodes.len()) && 0 <= k < cs@.len() && cs@[k] == ch && (
        forall|m: int|
            0 <= m < k ==> cat[nodes[#[trigger] cs@[m] as int].file_info as int].processed),
        ch < nodes.len(),
        !cat[nodes[ch as int].file_info as int].processed,
    ensures
        abs_nodes(nodes)[current].children matches Some(csm) && first_unproc(
            csm,
            abs_nodes(nodes),
            cat,
            0,
        ) == Some(ch as int),
{
    let cs = nodes[current].children.unwrap();
    let csm = abs_nodes(nodes)[current].children.unwrap();
    assert(csm =~= Seq::new(cs@.len(), |m: int| cs@[m] as int));
    assert(csm[k] == ch as int);
    assert(abs_nodes(nodes)[ch as int] == abs_node(nodes[ch as int]));
    assert(!cat[abs_nodes(nodes)[csm[k]].file].processed);
    assert forall|m: int|
        0 <= m < k implies cat[abs_nodes(nodes)[#[trigger] csm[m]].file].processed by {
        assert(csm[m] == cs@[m] as int);
        assert(abs_nodes(nodes)[csm[m]] == abs_node(nodes[cs@[m] as int]));
        assert(cat[nodes[cs@[m] as int].file_info as int].processed);
    }
    lemma_first_unproc_at(csm, abs_nodes(nodes), cat, k);
}

/// The arena after one materialization is the model's `append_children`.
proof fn lemma_abs_append(
    nodes_head: Seq<Node>,
    nodes_new: Seq<Node>,
    current: int,
    idxs: Seq<int>,
    files_len: int,
)
    requires
        0 <= current < nodes_head.len(),
        nodes_new.len() == nodes_head.len() + idxs.len(),
        forall|i: int| 0 <= i < nodes_head.len() && i != current ==> nodes_new[i] == nodes_head[i],
        nodes_new[current].file_info == nodes_head[current].file_info,
        nodes_new[current].prev == nodes_head[current].prev,
        nodes_new[current].node_path@ == nodes_head[current].node_path@,
        nodes_new[current].children matches Some(cs) && cs@.len() == idxs.len() && (forall|k: int|
            0 <= k < cs@.len() ==> #[trigger] cs@[k] == nodes_head.len() + k) && (forall|k: int|
            0 <= k < cs@.len() ==> nodes_new[#[trigger] cs@[k] as int].file_info == idxs[k]),
        forall|i: int|
            nodes_head.len() <= i < nodes_new.len() ==> (#[trigger] nodes_new[i].children)
                is None,
        nodes_wf(nodes_new, files_len),
    ensures
        abs_nodes(nodes_new) == append_children(abs_nodes(nodes_head), current, idxs),
{
    let old_len = nodes_head.len() as int;
    let model_nodes = append_children(abs_nodes(nodes_head), current, idxs);
    let cs = nodes_new[current].children.unwrap();
    assert forall|i: int|
        0 <= i < nodes_new.len() implies abs_nodes(nodes_new)[i] =~~= model_nodes[i] by {
        if i < old_len && i != current {
            assert(nodes_new[i] == nodes_head[i]);
            assert(model_nodes[i] == abs_nodes(nodes_head)[i]);
        } else if i == current {
            assert(model_nodes[i] == NodeModel {
                children: Some(Seq::new(idxs.len(), |k: int| old_len + k)),
                ..abs_nodes(nodes_head)[i]
            });
            match abs_node(nodes_new[i]).children {
                Some(cv) => {
                    assert forall|k2: int| 0 <= k2 < cv.len() implies cv[k2] == old_len + k2 by {
                        assert(cs@[k2] == old_len + k2);
                    }
                    assert(cv =~= Seq::new(idxs.len(), |k2: int| old_len + k2));
                },
                None => {
                    assert(false);
                },
            }
        } else {
            let k = i - old_len;
            assert(cs@[k] == i);
            assert(node_wf(nodes_new, current, files_len));
            assert(nodes_new[i].prev == Some(current as usize));
            assert(node_wf(nodes_new, i, files_len));
            assert(nodes_new[i].node_path@ == nodes_new[current].node_path@.push(
                nodes_new[i].file_info,
            ));
            assert(nodes_new[i].file_info == idxs[k]);
            assert(nodes_new[i].children is None);
            assert(model_nodes[i] == NodeModel {
                file: idxs[k],
                prev: Some(current),
                children: None,
                path: abs_nodes(nodes_head)[current].path.push(idxs[k]),
            });
            assert(abs_node(nodes_new[i]).path =~= abs_nodes(nodes_head)[current].path.push(
                idxs[k],
            ));
        }
    }
    assert(abs_nodes(nodes_new) =~~= model_nodes);
}

/// A fresh copy of a list of indices.
fn copy_indices(v: &Vec<usize>) -> (r: Vec<usize>)
    ensures
        r@ == v@,
{
    let mut out: Vec<usize> = Vec::new();
    let mut i: usize = 0;
    while i < v.len()
        invariant
            i <= v@.len(),
            out@ == v@.subrange(0, i as int),
        decreases v@.len() - i,
    {
        out.push(v[i]);
        proof {
            assert(out@ =~= v@.subrange(0, i + 1));
        }
        i += 1;
    }
    proof {
        assert(v@.subrange(0, v@.len() as int) =~= v@);
    }
    out
}

/// How one record may change over a run: every field fixed, the processed
/// flag only ever raised.
pub open spec fn evolved(a: FileInfoView, b: FileInfoView) -> bool {
    &&& b.abs_path == a.abs_path
    &&& b.file_name == a.file_name
    &&& b.module == a.module
    &&& b.file_type == a.file_type
    &&& b.includes == a.includes
    &&& (a.processed ==> b.processed)
}

/// The first child of `current`, in token order, whose file is not yet
/// processed.
#[verifier::loop_isolation(false)]
fn first_unprocessed(nodes: &Vec<Node>, current: usize, files: &Vec<FileInfo>) -> (r: Option<
    usize,
>)
    requires
        nodes_wf(nodes@, files@.len() as int),
        current < nodes@.len(),
        nodes@[current as int].children is Some,
    ensures
        ({
            let cs = nodes@[current as int].children.unwrap()@;
            match r {
                Some(ch) => ch < nodes@.len() && cs.contains(ch) && !catalog_view(
                    files@,
                )[nodes@[ch as int].file_info as int].processed && (exists|k: int|
                    0 <= k < cs.len() && cs[k] == ch && (forall|m: int|
                        0 <= m < k ==> catalog_view(
                            files@,
                        )[nodes@[#[trigger] cs[m] as int].file_info as int].processed)),
                None => forall|k: int|
                    0 <= k < cs.len() ==> catalog_view(files@)[nodes@[#[trigger] cs[k] as int].file_info as int].processed,
            }
        }),
{
    proof {
        assert(node_wf(nodes@, current as int, files@.len() as int));
    }
    let ghost cs_spec = nodes@[current as int].children.unwrap()@;
    let n = match &nodes[current].children {
        Some(cs) => cs.len(),
        None => 0,
    };
    let mut k: usize = 0;
    while k < n
        invariant
            n == cs_spec.len(),
            k <= n,
            forall|m: int|
                0 <= m < k ==> catalog_view(files@)[nodes@[#[trigger] cs_spec[m] as int].file_info as int].processed,
        decreases n - k,
    {
        let ch = match &nodes[current].children {
            Some(cs) => cs[k],
            None => 0,
        };
        proof {
            assert(ch == cs_spec[k as int]);
            assert(cs_spec[k as int] < nodes@.len());
            assert(node_wf(nodes@, ch as int, files@.len() as int));
        }
        if !files[nodes[ch].file_info].processed {
            proof {
                assert(cs_spec.contains(ch));
                assert(cs_spec[k as int] == ch && (forall|m: int|
                    0 <= m < k ==> catalog_view(
                        files@,
                    )[nodes@[#[trigger] cs_spec[m] as int].file_info as int].processed));
            }
            return Some(ch);
        }
        k += 1;
    }
    None
}

/// Terminus witnesses survive a catalog step that keeps every old record's
/// name and tokens and at most appends records.
proof fn lemma_terminus_transfer(
    rep: Seq<crate::report::ReportEntryView>,
    old_cat: Seq<FileInfoView>,
    new_cat: Seq<FileInfoView>,
)
    requires
        old_cat.len() <= new_cat.len(),
        forall|k: int|
            0 <= k < old_cat.len() ==> new_cat[k].file_name == old_cat[k].file_name
                && new_cat[k].includes == old_cat[k].includes,
        forall|n: Seq<u8>, p: Seq<Seq<u8>>|
            #[trigger] has_path(rep, n, p) ==> terminus_has_includes(n, old_cat),
    ensures
        forall|n: Seq<u8>, p: Seq<Seq<u8>>|
            #[trigger] has_path(rep, n, p) ==> terminus_has_includes(n, new_cat),
{
    assert forall|n: Seq<u8>, p: Seq<Seq<u8>>|
        #[trigger] has_path(rep, n, p) implies terminus_has_includes(n, new_cat) by {
        let fi = choose|fi: int|
            0 <= fi < old_cat.len() && old_cat[fi].file_name == n && old_cat[fi].includes.len()
                >= 1;
        assert(new_cat[fi].file_name == n && new_cat[fi].includes.len() >= 1);
    }
}

/// A sound node stays sound when the arena and the catalog only grow and
/// the nodes it can see keep their values.
pub proof fn lemma_node_wf_mono(
    nodes_a: Seq<Node>,
    nodes_b: Seq<Node>,
    i: int,
    fa: int,
    fb: int,
)
    requires
        0 <= i < nodes_a.len(),
        node_wf(nodes_a, i, fa),
        fa <= fb,
        nodes_a.len() <= nodes_b.len(),
        forall|k: int| 0 <= k < nodes_a.len() ==> nodes_b[k] == nodes_a[k],
    ensures
        node_wf(nodes_b, i, fb),
{
    assert(nodes_b[i] == nodes_a[i]);
    match nodes_a[i].prev {
        Some(p) => {
            assert(nodes_b[p as int] == nodes_a[p as int]);
        },
        None => {},
    }
    match nodes_a[i].children {
        Some(cs) => {
            assert forall|k: int| 0 <= k < cs@.len() implies cs@[k] < nodes_b.len() && i < cs@[k]
                && nodes_b[cs@[k] as int].prev == Some(i as usize) by {
                assert(nodes_b[cs@[k] as int] == nodes_a[cs@[k] as int]);
            }
        },
        None => {},
    }
}

/// An error while resolving one token is the error of resolving the whole
/// list: the first failure aborts the fold.
pub proof fn lemma_resolve_all_err(
    files: Seq<FileInfoView>,
    ms: Seq<ModuleView>,
    fs: Seq<FsEntryView>,
    tokens: Seq<Seq<u8>>,
    from: Seq<u8>,
    t: int,
    st: (Seq<FileInfoView>, Seq<int>),
    e: RunErrorView,
)
    requires
        0 <= t < tokens.len(),
        resolve_all_model(files, ms, fs, tokens.subrange(0, t), from) == Ok::<
            (Seq<FileInfoView>, Seq<int>),
            RunErrorView,
        >(st),
        get_file_model(st.0, ms, fs, tokens[t], from) == Err::<
            (Seq<FileInfoView>, Option<int>),
            RunErrorView,
        >(e),
    ensures
        resolve_all_model(files, ms, fs, tokens, from) == Err::<
            (Seq<FileInfoView>, Seq<int>),
            RunErrorView,
        >(e),
    decreases tokens.len(),
{
    if t == tokens.len() - 1 {
        assert(tokens.drop_last() =~= tokens.subrange(0, t));
    } else {
        assert(tokens.drop_last().subrange(0, t) =~= tokens.subrange(0, t));
        assert(tokens.drop_last()[t] == tokens[t]);
        lemma_resolve_all_err(files, ms, fs, tokens.drop_last(), from, t, st, e);
    }
}

impl Node {
    /// A new, unmaterialized node for the file at `file_info`, below `prev`:
    /// its path is the parent's path extended by its own file.
    pub fn create(file_info: usize, prev: Option<usize>, nodes: &Vec<Node>) -> (r: Node)
        requires
            match prev {
                Some(p) => p < nodes@.len(),
                None => true,
            },
        ensures
            r.file_info == file_info,
            r.prev == prev,
            r.children is None,
            r.node_path@ == match prev {
                Some(p) => nodes@[p as int].node_path@.push(file_info),
                None => seq![file_info],
            },
    {
        let mut node_path: Vec<usize>;
        match prev {
            Some(p) => {
                node_path = copy_indices(&nodes[p].node_path);
            },
            None => {
                node_path = Vec::new();
            },
        }
        node_path.push(file_info);
        proof {
            if prev is None {
                assert(node_path@ =~= seq![file_info]);
            }
        }
        Node { file_info, prev, children: None, node_path }
    }

    /// Whether some file repeats along this node's path — the cycle test —
    /// and, when one does, the name of the path's last file: the terminus.
    #[verifier::loop_isolation(false)]
    pub fn is_recursive(&self, files: &Vec<FileInfo>) -> (r: (bool, Option<Vec<u8>>))
        requires
            self.node_path@.len() >= 1,
            forall|k: int| 0 <= k < self.node_path@.len() ==> self.node_path@[k] < files@.len(),
        ensures
            r.0 == !distinct_seq(path_paths(self.node_path@, catalog_view(files@))),
            r.0 ==> (r.1 matches Some(n) && n@ == catalog_view(
                files@,
            )[self.node_path@[self.node_path@.len() - 1] as int].file_name),
            !r.0 ==> r.1 is None,
    {
        let ghost pp = path_paths(self.node_path@, catalog_view(files@));
        let n = self.node_path.len();
        let mut a: usize = 0;
        while a < n
            invariant
                forall|x: int, y: int| 0 <= x < y < n && x < a ==> pp[x] != pp[y],
            decreases n - a,
        {
            let mut b: usize = a + 1;
            while b < n
                invariant
                    a < b <= n,
                    forall|y: int| a < y < b ==> pp[a as int] != pp[y],
                decreases n - b,
            {
                assert(pp[a as int] == files@[self.node_path@[a as int] as int]@.abs_path);
                assert(pp[b as int] == files@[self.node_path@[b as int] as int]@.abs_path);
                if crate::bytes::bytes_eq(
                    &files[self.node_path[a]].abs_path,
                    &files[self.node_path[b]].abs_path,
                ) {
                    let last = self.node_path[n - 1];
                    return (true, Some(copy_bytes(&files[last].file_name)));
                }
                b += 1;
            }
            a += 1;
        }
        proof {
            assert(distinct_seq(pp));
        }
        (false, None)
    }

    /// Walks the include tree from `starting_node` until that node's file is
    /// processed, materializing children on demand, skipping files already
    /// fully explored, and recording every cycle it meets. The walk keeps an
    /// explicit parent chain instead of a call stack, so its depth is
    /// bounded by the catalog, never by native stack space; it terminates
    /// because every step either flips one file to processed — which
    /// happens at most once per file, and there are finitely many — or
    /// moves one level along a repeat-free chain of files.
    #[verifier::loop_isolation(false)]
    #[verifier::rlimit(100)]
    pub fn traverse(starting_node: Node, project: &mut Project, fs: &FsData) -> (r: Result<
        CycleReport,
        RunError,
    >)
        requires
            fs.wf(),
            old(project).wf(fs@),
            starting_node.file_info < old(project).files@.len(),
            starting_node.prev is None,
            starting_node.children is None,
            starting_node.node_path@ == seq![starting_node.file_info],
        ensures
            final(project).wf(fs@),
            final(project).root_path@ == old(project).root_path@,
            final(project).modules@ == old(project).modules@,
            old(project).files@.len() <= final(project).files@.len(),
            forall|k: int|
                0 <= k < old(project).files@.len() ==> evolved(
                    catalog_view(old(project).files@)[k],
                    catalog_view(final(project).files@)[k],
                ),
            r matches Ok(rep) ==> rep.wf() && (forall|n: Seq<u8>, p: Seq<Seq<u8>>|
                has_path(rep@, n, p) ==> cycle_path(n, p) && terminus_has_includes(
                    n,
                    catalog_view(final(project).files@),
                )),
            r matches Ok(rep) ==> catalog_view(
                final(project).files@,
            )[starting_node.file_info as int].processed,
            crate::file_info::fs_parseable(
                fs@,
                crate::file_info::module_names(seq_views(old(project).modules@)),
            ) ==> r is Ok,
            catalog_view(old(project).files@)[starting_node.file_info as int].includes.len() == 0
                ==> (r matches Ok(rep) && rep@.len() == 0),
            ({
                let s0 = init_walk_state(
                    catalog_view(old(project).files@),
                    starting_node.file_info as int,
                );
                let ms0 = seq_views(old(project).modules@);
                match r {
                    Ok(rep) => exists|s: WalkState|
                        #[trigger] walk_reaches(s0, ms0, fs@, Ok(s)) && s.report == rep@
                            && s.files == catalog_view(final(project).files@),
                    Err(e) => walk_reaches(s0, ms0, fs@, Err::<WalkState, RunErrorView>(e@)),
                }
            }),
    {
        let ghost files_start = catalog_view(project.files@);
        let ghost ms0 = seq_views(project.modules@);
        let ghost s0 = init_walk_state(files_start, starting_node.file_info as int);
        let ghost root_file = starting_node.file_info;
        let mut report = CycleReport::new();
        let mut nodes: Vec<Node> = Vec::new();
        nodes.push(starting_node);
        let mut current: usize = 0;
        proof {
            assert(abs_nodes(nodes@) =~~= s0.nodes);
            assert(WalkState {
                files: catalog_view(project.files@),
                nodes: abs_nodes(nodes@),
                current: current as int,
                report: report@,
            } =~~= s0);
        }
        loop
            invariant
                project.wf(fs@),
                project.root_path@ == old(project).root_path@,
                project.modules@ == old(project).modules@,
                files_start == catalog_view(old(project).files@),
                files_start.len() <= project.files@.len(),
                forall|k: int|
                    0 <= k < files_start.len() ==> evolved(
                        files_start[k],
                        catalog_view(project.files@)[k],
                    ),
                nodes_wf(nodes@, project.files@.len() as int),
                nodes@.len() >= 1,
                nodes@[0].prev is None,
                nodes@[0].file_info == root_file,
                root_file < files_start.len(),
                current < nodes@.len(),
                distinct_seq(
                    path_paths(nodes@[current as int].node_path@, catalog_view(project.files@)),
                ),
                report.wf(),
                forall|n: Seq<u8>, p: Seq<Seq<u8>>|
                    #[trigger] has_path(report@, n, p) ==> cycle_path(n, p)
                        && terminus_has_includes(n, catalog_view(project.files@)),
                forall|i: int|
                    0 <= i < nodes@.len() && (#[trigger] nodes@[i].children) is Some
                        ==> catalog_view(project.files@)[nodes@[i].file_info as int].includes.len()
                        >= 1,
                forall|a: int|
                    0 <= a < nodes@[current as int].node_path@.len() - 1 ==> catalog_view(
                        project.files@,
                    )[#[trigger] nodes@[current as int].node_path@[a] as int].includes.len() >= 1,
                files_start[root_file as int].includes.len() == 0 ==> (nodes@.len() == 1
                    && current == 0 && report@.len() == 0 && nodes@[0].children is None),
                ms0 == seq_views(project.modules@),
                s0 == init_walk_state(files_start, root_file as int),
                forall|o: Result<WalkState, RunErrorView>|
                    #[trigger] walk_reaches(s0, ms0, fs@, o) <==> walk_reaches(
                        WalkState {
                            files: catalog_view(project.files@),
                            nodes: abs_nodes(nodes@),
                            current: current as int,
                            report: report@,
                        },
                        ms0,
                        fs@,
                        o,
                    ),
            decreases
                fs@.len() + 1 - count_processed(catalog_view(project.files@)),
                (if catalog_view(project.files@)[nodes@[current as int].file_info as int].processed {
                    1int
                } else {
                    0int
                }),
                (if catalog_view(project.files@)[nodes@[current as int].file_info as int].processed {
                    nodes@[current as int].node_path@.len() as int
                } else {
                    fs@.len() + 1 - nodes@[current as int].node_path@.len()
                }),
                (if nodes@[current as int].children is None {
                    1int
                } else {
                    0int
                }),
        {
            let ghost cat = catalog_view(project.files@);
            let ghost nodes_head = nodes@;
            let ghost sab = WalkState {
                files: cat,
                nodes: abs_nodes(nodes_head),
                current: current as int,
                report: report@,
            };
            proof {
                // The measures are nonnegative: the catalog cannot outgrow
                // the snapshot, and a repeat-free chain of files cannot
                // outgrow the catalog.
                lemma_count_bounds(cat);
                assert forall|i: int, j: int|
                    0 <= i < j < cat.len() implies cat[i].abs_path != cat[j].abs_path by {}
                assert forall|i: int|
                    0 <= i < cat.len() implies crate::fsdata::fs_has(
                    fs@,
                    #[trigger] cat[i].abs_path,
                ) by {}
                lemma_catalog_bound(cat, fs@);
                assert(node_wf(nodes@, current as int, project.files@.len() as int));
                let np = nodes@[current as int].node_path@;
                assert forall|a: int, b: int| 0 <= a < b < np.len() implies np[a] != np[b] by {
                    assert(path_paths(np, cat)[a] != path_paths(np, cat)[b]);
                }
                lemma_distinct_indices_bound(np, cat.len() as int);
            }
            let cur_file = nodes[current].file_info;
            if project.files[cur_file].processed {
                match nodes[current].prev {
                    None => {
                        // The root is processed: the traversal is complete.
                        proof {
                            assert(sab.nodes[sab.current] == abs_node(nodes_head[current as int]));
                            lemma_step_done(sab, ms0, fs@);
                            reveal(walk);
                            assert(walk(sab, ms0, fs@, 0) == Some(
                                Ok::<WalkState, RunErrorView>(sab),
                            ));
                            assert(walk_reaches(sab, ms0, fs@, Ok(sab)));
                            assert(walk_reaches(s0, ms0, fs@, Ok(sab)));
                            assert(sab.report == report@ && sab.files == catalog_view(
                                project.files@,
                            ));
                        }
                        return Ok(report);
                    },
                    Some(p) => {
                        // Fully explored below here: move back up.
                        proof {
                            assert(node_wf(nodes@, p as int, project.files@.len() as int));
                            let np = nodes@[current as int].node_path@;
                            let pp = nodes@[p as int].node_path@;
                            assert(np == pp.push(cur_file));
                            assert forall|a: int, b: int|
                                0 <= a < b < pp.len() implies path_paths(pp, cat)[a] != path_paths(
                                pp,
                                cat,
                            )[b] by {
                                assert(path_paths(np, cat)[a] == path_paths(pp, cat)[a]);
                                assert(path_paths(np, cat)[b] == path_paths(pp, cat)[b]);
                            }
                            assert forall|a: int|
                                0 <= a < pp.len() - 1 implies cat[#[trigger] pp[a] as int].includes.len()
                                >= 1 by {
                                assert(pp[a] == np[a]);
                                assert(cat[np[a] as int].includes.len() >= 1);
                            }
                        }
                        current = p;
                        proof {
                            let s_new = WalkState {
                                files: catalog_view(project.files@),
                                nodes: abs_nodes(nodes@),
                                current: current as int,
                                report: report@,
                            };
                            assert(sab.nodes[sab.current] == abs_node(nodes_head[sab.current]));
                            lemma_step_pop(sab, ms0, fs@, p as int);
                            assert(s_new =~~= WalkState { current: p as int, ..sab });
                            assert(step(sab, ms0, fs@) == StepResult::Next(s_new));
                            lemma_equiv_advance(s0, sab, s_new, ms0, fs@);
                        }
                    },
                }
            } else {
                let children_known = match &nodes[current].children {
                    Some(_) => true,
                    None => false,
                };
                if !children_known {
                    if project.files[cur_file].includes.len() == 0 {
                        // A leaf: nothing to explore, the file is done.
                        proof {
                            assert(cat[cur_file as int].includes =~= seq_views(
                                project.files@[cur_file as int].includes@,
                            ));
                        }
                        project.mark_processed(cur_file);
                        proof {
                            let newcat = catalog_view(project.files@);
                            lemma_count_mark(cat, cur_file as int, newcat[cur_file as int]);
                            assert(path_paths(nodes@[current as int].node_path@, newcat)
                                =~= path_paths(nodes@[current as int].node_path@, cat));
                            lemma_terminus_transfer(report@, cat, newcat);
                            assert forall|i: int|
                                0 <= i < nodes@.len() && (#[trigger] nodes@[i].children) is Some
                                implies newcat[nodes@[i].file_info as int].includes.len() >= 1 by {
                                assert(node_wf(nodes_head, i, cat.len() as int));
                                assert(newcat[nodes@[i].file_info as int].includes
                                    == cat[nodes@[i].file_info as int].includes);
                            }
                            let np = nodes@[current as int].node_path@;
                            assert forall|a: int|
                                0 <= a < np.len() - 1 implies newcat[#[trigger] np[a] as int].includes.len()
                                >= 1 by {
                                assert(cat[np[a] as int].includes.len() >= 1);
                                assert(newcat[np[a] as int].includes == cat[np[a] as int].includes);
                            }
                            let s_new = WalkState {
                                files: catalog_view(project.files@),
                                nodes: abs_nodes(nodes@),
                                current: current as int,
                                report: report@,
                            };
                            assert(sab.nodes[sab.current] == abs_node(nodes_head[current as int]));
                            assert(nodes_head[current as int].children is None);
                            assert(cat[cur_file as int].includes.len() == 0);
                            lemma_step_leaf(sab, ms0, fs@);
                            assert(s_new =~~= WalkState {
                                files: cat.update(cur_file as int, marked(cat[cur_file as int])),
                                ..sab
                            });
                            assert(step(sab, ms0, fs@) == StepResult::Next(s_new));
                            lemma_equiv_advance(s0, sab, s_new, ms0, fs@);
                        }
                    } else {
                        // Materialize the children: one per include token
                        // that resolves, silently dropping the rest.
                        let ghost files_pre = catalog_view(project.files@);
                        match Node::create_node_children(current, &mut nodes, project, fs) {
                            Err(e) => {
                                proof {
                                    assert(sab.nodes[sab.current] == abs_node(
                                        nodes_head[current as int],
                                    ));
                                    assert(nodes_head[current as int].children is None);
                                    assert(resolve_all_model(
                                        cat,
                                        ms0,
                                        fs@,
                                        cat[cur_file as int].includes,
                                        cat[cur_file as int].module,
                                    ) == Err::<(Seq<FileInfoView>, Seq<int>), RunErrorView>(e@));
                                    lemma_step_mat(sab, ms0, fs@);
                                    assert(step(sab, ms0, fs@) == StepResult::Fail(e@));
                                    reveal(walk);
                                    assert(walk(sab, ms0, fs@, 0) == Some(
                                        Err::<WalkState, RunErrorView>(e@),
                                    ));
                                    assert(walk_reaches(sab, ms0, fs@, Err(e@)));
                                    assert(walk_reaches(s0, ms0, fs@, Err(e@)));
                                }
                                return Err(e);
                            },
                            Ok(()) => {
                                proof {
                                    let newcat = catalog_view(project.files@);
                                    lemma_count_extend(files_pre, newcat);
                                    assert(path_paths(nodes@[current as int].node_path@, newcat)
                                        =~= path_paths(nodes@[current as int].node_path@, cat));
                                    if files_start[root_file as int].includes.len() == 0 {
                                        assert(evolved(
                                            files_start[root_file as int],
                                            cat[root_file as int],
                                        ));
                                        assert(false);
                                    }
                                    lemma_terminus_transfer(report@, cat, newcat);
                                    assert forall|i: int|
                                        0 <= i < nodes@.len() && (#[trigger] nodes@[i].children)
                                        is Some implies newcat[nodes@[i].file_info as int].includes.len()
                                        >= 1 by {
                                        if i < nodes_head.len() && i != current {
                                            assert(nodes@[i] == nodes_head[i]);
                                            assert(node_wf(nodes_head, i, cat.len() as int));
                                            assert(newcat[nodes@[i].file_info as int]
                                                == cat[nodes@[i].file_info as int]);
                                        } else if i == current {
                                            assert(newcat[cur_file as int]
                                                == cat[cur_file as int]);
                                        }
                                    }
                                    let np = nodes@[current as int].node_path@;
                                    assert forall|a: int|
                                        0 <= a < np.len() - 1 implies newcat[#[trigger] np[a] as int].includes.len()
                                        >= 1 by {
                                        assert(cat[np[a] as int].includes.len() >= 1);
                                        assert(newcat[np[a] as int] == cat[np[a] as int]);
                                    }
                                    // The materialization is one model step.
                                    assert(sab.nodes[sab.current] == abs_node(
                                        nodes_head[current as int],
                                    ));
                                    assert(nodes_head[current as int].children is None);
                                    assert(cat[cur_file as int].includes.len() != 0);
                                    match resolve_all_model(
                                        cat,
                                        ms0,
                                        fs@,
                                        cat[cur_file as int].includes,
                                        cat[cur_file as int].module,
                                    ) {
                                        Err(_) => {
                                            assert(false);
                                        },
                                        Ok((f2, idxs)) => {
                                            assert(newcat == f2);
                                            lemma_abs_append(
                                                nodes_head,
                                                nodes@,
                                                current as int,
                                                idxs,
                                                newcat.len() as int,
                                            );
                                            lemma_step_mat(sab, ms0, fs@);
                                            let s_new = WalkState {
                                                files: catalog_view(project.files@),
                                                nodes: abs_nodes(nodes@),
                                                current: current as int,
                                                report: report@,
                                            };
                                            assert(s_new =~~= WalkState {
                                                files: f2,
                                                nodes: append_children(
                                                    sab.nodes,
                                                    sab.current,
                                                    idxs,
                                                ),
                                                ..sab
                                            });
                                            assert(step(sab, ms0, fs@) == StepResult::Next(s_new));
                                            lemma_equiv_advance(s0, sab, s_new, ms0, fs@);
                                        },
                                    }
                                }
                            },
                        }
                    }
                } else {
                    match first_unprocessed(&nodes, current, &project.files) {
                        None => {
                            // Every edge below is explored: the file is done.
                            project.mark_processed(cur_file);
                            proof {
                                let newcat = catalog_view(project.files@);
                                lemma_count_mark(cat, cur_file as int, newcat[cur_file as int]);
                                assert(path_paths(nodes@[current as int].node_path@, newcat)
                                    =~= path_paths(nodes@[current as int].node_path@, cat));
                                lemma_terminus_transfer(report@, cat, newcat);
                                assert forall|i: int|
                                    0 <= i < nodes@.len() && (#[trigger] nodes@[i].children)
                                    is Some implies newcat[nodes@[i].file_info as int].includes.len()
                                    >= 1 by {
                                    assert(node_wf(nodes_head, i, cat.len() as int));
                                    assert(newcat[nodes@[i].file_info as int].includes
                                        == cat[nodes@[i].file_info as int].includes);
                                }
                                let np = nodes@[current as int].node_path@;
                                assert forall|a: int|
                                    0 <= a < np.len() - 1 implies newcat[#[trigger] np[a] as int].includes.len()
                                    >= 1 by {
                                    assert(cat[np[a] as int].includes.len() >= 1);
                                    assert(newcat[np[a] as int].includes
                                        == cat[np[a] as int].includes);
                                }
                                // Every child is processed: one model step
                                // seals the file.
                                assert(sab.nodes[sab.current] == abs_node(
                                    nodes_head[current as int],
                                ));
                                assert(node_wf(nodes_head, current as int, cat.len() as int));
                                lemma_abs_scan_none(nodes_head, current as int, cat);
                                lemma_step_seal(sab, ms0, fs@);
                                let s_new = WalkState {
                                    files: catalog_view(project.files@),
                                    nodes: abs_nodes(nodes@),
                                    current: current as int,
                                    report: report@,
                                };
                                assert(s_new =~~= WalkState {
                                    files: cat.update(
                                        cur_file as int,
                                        marked(cat[cur_file as int]),
                                    ),
                                    ..sab
                                });
                                assert(step(sab, ms0, fs@) == StepResult::Next(s_new));
                                lemma_equiv_advance(s0, sab, s_new, ms0, fs@);
                            }
                        },
                        Some(ch) => {
                            proof {
                                assert(node_wf(nodes@, ch as int, project.files@.len() as int));
                                let cs = nodes@[current as int].children.unwrap()@;
                                let k = choose|k: int| 0 <= k < cs.len() && cs[k] == ch;
                                assert(nodes@[ch as int].prev == Some(current));
                                // The model's scan finds the same child.
                                assert(sab.nodes[sab.current] == abs_node(
                                    nodes_head[current as int],
                                ));
                                assert(node_wf(nodes_head, current as int, cat.len() as int));
                                let kf = choose|kf: int|
                                    0 <= kf < cs.len() && cs[kf] == ch && (forall|m: int|
                                        0 <= m < kf ==> catalog_view(
                                            project.files@,
                                        )[nodes@[#[trigger] cs[m] as int].file_info as int].processed);
                                lemma_abs_scan_at(nodes_head, current as int, cat, ch, kf);
                                assert(sab.nodes[ch as int] == abs_node(nodes_head[ch as int]));
                                // The model child's path mirrors the arena's.
                                let cmodel = sab.nodes[ch as int];
                                assert(cmodel.path =~= Seq::new(
                                    nodes@[ch as int].node_path@.len(),
                                    |m: int| nodes@[ch as int].node_path@[m] as int,
                                ));
                                assert(model_paths(cmodel.path, cat) =~= path_paths(
                                    nodes@[ch as int].node_path@,
                                    cat,
                                ));
                                assert(model_names(cmodel.path, cat) =~= path_names(
                                    nodes@[ch as int].node_path@,
                                    cat,
                                ));
                                assert(cmodel.file == nodes@[ch as int].file_info as int);
                            }
                            let child_file = nodes[ch].file_info;
                            let rec = nodes[ch].is_recursive(&project.files);
                            match rec.1 {
                                Some(name) => {
                                    // The child closes a cycle: its file
                                    // repeats along the path. Record the
                                    // readable path under the terminus name
                                    // and seal the file; the walk does not
                                    // descend into it.
                                    let rp = nodes[ch].readable_path(&project.files);
                                    proof {
                                        let cp = nodes@[ch as int].node_path@;
                                        let pp = nodes@[current as int].node_path@;
                                        assert(cp == pp.push(child_file));
                                        assert(!distinct_seq(path_paths(cp, cat)));
                                        let (a, b) = choose|a: int, b: int|
                                            0 <= a < b < path_paths(cp, cat).len() && path_paths(
                                                cp,
                                                cat,
                                            )[a] == path_paths(cp, cat)[b];
                                        assert(0 <= a < b < cp.len());
                                        if b < cp.len() - 1 {
                                            assert(path_paths(cp, cat)[a] == path_paths(pp, cat)[a]);
                                            assert(path_paths(cp, cat)[b] == path_paths(pp, cat)[b]);
                                            assert(false);
                                        }
                                        assert(b == cp.len() - 1);
                                        assert(cat[cp[a] as int].abs_path == cat[cp[b] as int].abs_path);
                                        assert(cat[cp[a] as int].file_name == cat[cp[b] as int].file_name);
                                        assert(path_names(cp, cat)[a] == path_names(cp, cat)[b]);
                                        assert(name@ == path_names(cp, cat)[cp.len() - 1]);
                                        assert(seq_views(rp@) == path_names(cp, cat));
                                        assert(cycle_path(name@, seq_views(rp@)));
                                        // The terminus file pulls something
                                        // in: its earlier occurrence on the
                                        // path has a child on the path.
                                        assert(pp[pp.len() - 1] == cur_file);
                                        if a < pp.len() - 1 {
                                            assert(cat[pp[a] as int].includes.len() >= 1);
                                        } else {
                                            assert(cp[a] == cur_file);
                                            assert(cat[cur_file as int].includes.len() >= 1);
                                        }
                                        assert(cat[cp[a] as int].file_name == name@);
                                        assert(terminus_has_includes(name@, cat));
                                    }
                                    project.mark_processed(child_file);
                                    proof {
                                        let newcat = catalog_view(project.files@);
                                        lemma_count_mark(
                                            cat,
                                            child_file as int,
                                            newcat[child_file as int],
                                        );
                                        assert(path_paths(nodes@[current as int].node_path@, newcat)
                                            =~= path_paths(
                                            nodes@[current as int].node_path@,
                                            cat,
                                        ));
                                        assert forall|i: int|
                                            0 <= i < nodes@.len() && (#[trigger] nodes@[i].children)
                                            is Some implies newcat[nodes@[i].file_info as int].includes.len()
                                            >= 1 by {
                                            assert(node_wf(nodes_head, i, cat.len() as int));
                                            assert(newcat[nodes@[i].file_info as int].includes
                                                == cat[nodes@[i].file_info as int].includes);
                                        }
                                        let np = nodes@[current as int].node_path@;
                                        assert forall|a2: int|
                                            0 <= a2 < np.len() - 1 implies newcat[#[trigger] np[a2] as int].includes.len()
                                            >= 1 by {
                                            assert(cat[np[a2] as int].includes.len() >= 1);
                                            assert(newcat[np[a2] as int].includes
                                                == cat[np[a2] as int].includes);
                                        }
                                        lemma_terminus_transfer(report@, cat, newcat);
                                    }
                                    let ghost report_pre = report@;
                                    report.insert(name, rp);
                                    proof {
                                        let newcat = catalog_view(project.files@);
                                        let fi = choose|fi: int|
                                            0 <= fi < cat.len() && cat[fi].file_name == name@
                                                && cat[fi].includes.len() >= 1;
                                        assert(newcat[fi].file_name == name@ && newcat[fi].includes.len()
                                            >= 1);
                                        assert(terminus_has_includes(name@, newcat));
                                        assert forall|n: Seq<u8>, p: Seq<Seq<u8>>|
                                            #[trigger] has_path(report@, n, p) implies cycle_path(
                                            n,
                                            p,
                                        ) && terminus_has_includes(n, newcat) by {
                                            if !(n == name@ && p == seq_views(rp@)) {
                                                assert(has_path(report_pre, n, p));
                                            }
                                        }
                                        // Sealing the terminus and recording
                                        // the path is one model step.
                                        let cmodel = sab.nodes[ch as int];
                                        assert(!distinct_seq(model_paths(cmodel.path, cat)));
                                        lemma_step_cycle(sab, ms0, fs@, ch as int);
                                        let s_new = WalkState {
                                            files: catalog_view(project.files@),
                                            nodes: abs_nodes(nodes@),
                                            current: current as int,
                                            report: report@,
                                        };
                                        assert(cmodel.file == child_file as int);
                                        assert(cmodel.path[cmodel.path.len() - 1]
                                            == child_file as int);
                                        assert(cat[cmodel.path[cmodel.path.len() - 1]].file_name
                                            == name@);
                                        assert(report@ == crate::report::report_insert(
                                            report_pre,
                                            name@,
                                            seq_views(rp@),
                                        ));
                                        assert(seq_views(rp@) == model_names(cmodel.path, cat));
                                        assert(s_new =~~= WalkState {
                                            files: cat.update(
                                                cmodel.file,
                                                marked(cat[cmodel.file]),
                                            ),
                                            report: crate::report::report_insert(
                                                sab.report,
                                                cat[cmodel.path[cmodel.path.len() - 1]].file_name,
                                                model_names(cmodel.path, cat),
                                            ),
                                            ..sab
                                        });
                                        assert(step(sab, ms0, fs@) == StepResult::Next(s_new));
                                        lemma_equiv_advance(s0, sab, s_new, ms0, fs@);
                                    }
                                },
                                None => {
                                    // No repeat: descend into the child.
                                    proof {
                                        assert(distinct_seq(
                                            path_paths(nodes@[ch as int].node_path@, cat),
                                        ));
                                        let cp = nodes@[ch as int].node_path@;
                                        let pp = nodes@[current as int].node_path@;
                                        assert forall|a: int, b: int|
                                            0 <= a < b < cp.len() implies cp[a] != cp[b] by {
                                            assert(path_paths(cp, cat)[a] != path_paths(cp, cat)[b]);
                                        }
                                        lemma_distinct_indices_bound(cp, cat.len() as int);
                                        assert(cp == pp.push(child_file));
                                        assert(pp[pp.len() - 1] == cur_file);
                                        assert forall|a: int|
                                            0 <= a < cp.len() - 1 implies cat[#[trigger] cp[a] as int].includes.len()
                                            >= 1 by {
                                            if a < pp.len() - 1 {
                                                assert(cat[pp[a] as int].includes.len() >= 1);
                                            } else {
                                                assert(cp[a] == cur_file);
                                                assert(cat[cur_file as int].includes.len() >= 1);
                                            }
                                        }
                                    }
                                    current = ch;
                                    proof {
                                        // Descending is one model step.
                                        let cmodel = sab.nodes[ch as int];
                                        assert(distinct_seq(model_paths(cmodel.path, cat)));
                                        lemma_step_descend(sab, ms0, fs@, ch as int);
                                        let s_new = WalkState {
                                            files: catalog_view(project.files@),
                                            nodes: abs_nodes(nodes@),
                                            current: current as int,
                                            report: report@,
                                        };
                                        assert(s_new =~~= WalkState { current: ch as int, ..sab });
                                        assert(step(sab, ms0, fs@) == StepResult::Next(s_new));
                                        lemma_equiv_advance(s0, sab, s_new, ms0, fs@);
                                    }
                                },
                            }
                        },
                    }
                }
            }
        }
    }

    /// Materializes the children of the node at `node`: one child per
    /// include token that resolves, in token order; unresolved tokens are
    /// silently dropped and produce no edge. Happens at most once per node.
    /// A fatal materialization failure aborts the run.
    #[verifier::loop_isolation(false)]
    pub fn create_node_children(
        node: usize,
        nodes: &mut Vec<Node>,
        project: &mut Project,
        fs: &FsData,
    ) -> (r: Result<(), RunError>)
        requires
            fs.wf(),
            old(project).wf(fs@),
            nodes_wf(old(nodes)@, old(project).files@.len() as int),
            node < old(nodes)@.len(),
            old(nodes)@[node as int].children is None,
        ensures
            final(project).wf(fs@),
            final(project).root_path@ == old(project).root_path@,
            final(project).modules@ == old(project).modules@,
            nodes_wf(final(nodes)@, final(project).files@.len() as int),
            old(project).files@.len() <= final(project).files@.len(),
            forall|k: int|
                0 <= k < old(project).files@.len() ==> catalog_view(final(project).files@)[k]
                    == catalog_view(old(project).files@)[k],
            forall|k: int|
                old(project).files@.len() <= k < final(project).files@.len() ==> !catalog_view(
                    final(project).files@,
                )[k].processed,
            old(nodes)@.len() <= final(nodes)@.len(),
            forall|i: int|
                0 <= i < old(nodes)@.len() && i != node ==> final(nodes)@[i] == old(nodes)@[i],
            ({
                let new_nodes = final(nodes)@;
                forall|i: int|
                    old(nodes)@.len() <= i < new_nodes.len() ==> (#[trigger] new_nodes[i].children)
                        is None
            }),
            final(nodes)@[node as int].file_info == old(nodes)@[node as int].file_info,
            final(nodes)@[node as int].prev == old(nodes)@[node as int].prev,
            final(nodes)@[node as int].node_path@ == old(nodes)@[node as int].node_path@,
            ({
                let files0 = catalog_view(old(project).files@);
                let ms = seq_views(old(project).modules@);
                let fi = old(nodes)@[node as int].file_info as int;
                let outcome = resolve_all_model(
                    files0,
                    ms,
                    fs@,
                    files0[fi].includes,
                    files0[fi].module,
                );
                let new_nodes = final(nodes)@;
                match r {
                    Ok(_) => outcome matches Ok((f2, idxs)) && catalog_view(
                        final(project).files@,
                    ) == f2 && new_nodes.len() == old(nodes)@.len() + idxs.len() && (
                    new_nodes[node as int].children matches Some(cs) && cs@.len()
                        == idxs.len() && (forall|k: int|
                        0 <= k < cs@.len() ==> #[trigger] cs@[k] == old(nodes)@.len() + k)
                        && (forall|k: int|
                        0 <= k < cs@.len() ==> new_nodes[#[trigger] cs@[k] as int].file_info
                            == idxs[k])),
                    Err(er) => outcome == Err::<(Seq<FileInfoView>, Seq<int>), RunErrorView>(er@)
                        && !crate::file_info::fs_parseable(
                        fs@,
                        crate::file_info::module_names(seq_views(old(project).modules@)),
                    ) && new_nodes[node as int].children is None,
                }
            }),
    {
        let ghost files0 = catalog_view(project.files@);
        let ghost ms = seq_views(project.modules@);
        let fi = nodes[node].file_info;
        proof {
            assert(node_wf(old(nodes)@, node as int, files0.len() as int));
        }
        let tokens = crate::bytes::copy_lines(&project.files[fi].includes);
        let from_module = copy_bytes(&project.files[fi].module);
        let ghost tokens0 = seq_views(tokens@);
        proof {
            assert(tokens0 == files0[fi as int].includes);
            assert(from_module@ == files0[fi as int].module);
            assert(tokens0.subrange(0, 0) =~= Seq::<Seq<u8>>::empty());
        }
        let mut cs: Vec<usize> = Vec::new();
        let ghost mut gidx: Seq<int> = Seq::empty();
        let old_len = nodes.len();
        let mut t: usize = 0;
        while t < tokens.len()
            invariant
                project.wf(fs@),
                project.root_path@ == old(project).root_path@,
                project.modules@ == old(project).modules@,
                nodes_wf(nodes@, project.files@.len() as int),
                t <= tokens0.len(),
                tokens0.len() == tokens@.len(),
                resolve_all_model(files0, ms, fs@, tokens0.subrange(0, t as int), from_module@)
                    == Ok::<(Seq<FileInfoView>, Seq<int>), RunErrorView>(
                    (catalog_view(project.files@), gidx),
                ),
                files0.len() <= project.files@.len(),
                forall|k: int| 0 <= k < files0.len() ==> catalog_view(project.files@)[k] == files0[k],
                forall|k: int|
                    files0.len() <= k < project.files@.len() ==> !catalog_view(
                        project.files@,
                    )[k].processed,
                nodes@.len() == old_len + cs@.len(),
                forall|i: int| 0 <= i < old_len ==> nodes@[i] == old(nodes)@[i],
                forall|i: int|
                    old_len <= i < nodes@.len() ==> (#[trigger] nodes@[i].children) is None,
                gidx.len() == cs@.len(),
                forall|k: int| 0 <= k < cs@.len() ==> #[trigger] cs@[k] == old_len + k,
                forall|k: int|
                    0 <= k < cs@.len() ==> #[trigger] nodes@[cs@[k] as int].file_info == gidx[k],
                forall|k: int|
                    0 <= k < cs@.len() ==> #[trigger] nodes@[cs@[k] as int].prev == Some(node),
            decreases tokens0.len() - t,
        {
            proof {
                assert(tokens0.subrange(0, t + 1).drop_last() =~= tokens0.subrange(0, t as int));
                assert(tokens0.subrange(0, t + 1).last() == tokens@[t as int]@);
            }
            let ghost files_before = catalog_view(project.files@);
            let ghost files_len_before = project.files@.len() as int;
            match project.get_file(&tokens[t], &from_module, fs) {
                Err(e) => {
                    proof {
                        lemma_get_file_model_frame(files_before, ms, fs@, tokens@[t as int]@, from_module@);
                        lemma_resolve_all_err(
                            files0,
                            ms,
                            fs@,
                            tokens0,
                            from_module@,
                            t as int,
                            (files_before, gidx),
                            e@,
                        );
                    }
                    return Err(e);
                },
                Ok(None) => {
                    proof {
                        lemma_get_file_model_frame(files_before, ms, fs@, tokens@[t as int]@, from_module@);
                        assert(catalog_view(project.files@) == files_before);
                        assert(resolve_all_model(
                            files0,
                            ms,
                            fs@,
                            tokens0.subrange(0, t + 1),
                            from_module@,
                        ) == Ok::<(Seq<FileInfoView>, Seq<int>), RunErrorView>(
                            (catalog_view(project.files@), gidx),
                        ));
                    }
                },
                Ok(Some(idx)) => {
                    proof {
                        lemma_get_file_model_frame(files_before, ms, fs@, tokens@[t as int]@, from_module@);
                    }
                    let files_now = project.files.len();
                    proof {
                        assert(catalog_view(project.files@).len() == files_now as int);
                    }
                    let child = Node::create(idx, Some(node), nodes);
                    let ghost nodes_before = nodes@;
                    let ghost cs_before = cs@;
                    nodes.push(child);
                    cs.push(nodes.len() - 1);
                    proof {
                        gidx = gidx.push(idx as int);
                        assert forall|k: int|
                            0 <= k < cs@.len() implies #[trigger] cs@[k] == old_len + k
                            && nodes@[cs@[k] as int].file_info == gidx[k] && nodes@[cs@[k] as int].prev
                            == Some(node) by {
                            if k < cs@.len() - 1 {
                                assert(cs@[k] == cs_before[k]);
                                assert(cs_before[k] == old_len + k);
                                assert(cs_before[k] < nodes_before.len());
                                assert(nodes@[cs@[k] as int] == nodes_before[cs@[k] as int]);
                                assert(nodes_before[cs@[k] as int].file_info == gidx[k]);
                            } else {
                                assert(cs@[k] == nodes@.len() - 1);
                                assert(nodes@[cs@[k] as int] == child);
                            }
                        }
                        assert(get_file_model(files_before, ms, fs@, tokens@[t as int]@, from_module@)
                            matches Ok((f2, oi)) && oi == Some(idx as int) && f2 == catalog_view(
                            project.files@,
                        ));
                        assert(resolve_all_model(
                            files0,
                            ms,
                            fs@,
                            tokens0.subrange(0, t + 1),
                            from_module@,
                        ) == Ok::<(Seq<FileInfoView>, Seq<int>), RunErrorView>(
                            (catalog_view(project.files@), gidx),
                        ));
                        assert forall|i: int|
                            0 <= i < nodes@.len() implies node_wf(
                            nodes@,
                            i,
                            project.files@.len() as int,
                        ) by {
                            if i < nodes_before.len() {
                                assert(node_wf(nodes_before, i, files_len_before));
                                lemma_node_wf_mono(
                                    nodes_before,
                                    nodes@,
                                    i,
                                    files_len_before,
                                    project.files@.len() as int,
                                );
                            } else {
                                assert(nodes@[i] == child);
                            }
                        }
                    }
                },
            }
            t += 1;
        }
        proof {
            assert(tokens0.subrange(0, tokens0.len() as int) =~= tokens0);
        }
        let ghost csv = cs@;
        let ghost nodes_before = nodes@;
        nodes[node].children = Some(cs);
        proof {
            assert(nodes@[node as int].children matches Some(c) && c@ == csv);
            assert(nodes@[node as int].file_info == nodes_before[node as int].file_info);
            assert(nodes@[node as int].prev == nodes_before[node as int].prev);
            assert(nodes@[node as int].node_path == nodes_before[node as int].node_path);
            assert forall|i: int|
                0 <= i < nodes@.len() implies node_wf(nodes@, i, project.files@.len() as int) by {
                assert(node_wf(nodes_before, i, project.files@.len() as int));
                if i != node {
                    assert(nodes@[i] == nodes_before[i]);
                    match nodes_before[i].prev {
                        Some(p) => {
                            assert(nodes@[p as int].node_path == nodes_before[p as int].node_path);
                        },
                        None => {},
                    }
                    match nodes_before[i].children {
                        Some(cso) => {
                            assert forall|k: int| 0 <= k < cso@.len() implies nodes@[cso@[k] as int].prev
                                == nodes_before[cso@[k] as int].prev by {}
                        },
                        None => {},
                    }
                } else {
                    assert forall|k: int|
                        0 <= k < csv.len() implies csv[k] < nodes@.len() && node < csv[k]
                        && nodes@[csv[k] as int].prev == Some(node) by {
                        assert(csv[k] == old_len + k);
                        assert(nodes_before[csv[k] as int].prev == Some(node));
                        assert(nodes@[csv[k] as int] == nodes_before[csv[k] as int]);
                    }
                }
            }
        }
        Ok(())
    }

    /// The file names from the root to this node, in order.
    #[verifier::loop_isolation(false)]
    pub fn readable_path(&self, files: &Vec<FileInfo>) -> (r: Vec<Vec<u8>>)
        requires
            forall|k: int| 0 <= k < self.node_path@.len() ==> self.node_path@[k] < files@.len(),
        ensures
            seq_views(r@) == path_names(self.node_path@, catalog_view(files@)),
    {
        let mut out: Vec<Vec<u8>> = Vec::new();
        let mut k: usize = 0;
        while k < self.node_path.len()
            invariant
                k <= self.node_path@.len(),
                seq_views(out@) == path_names(self.node_path@, catalog_view(files@)).subrange(
                    0,
                    k as int,
                ),
            decreases self.node_path@.len() - k,
        {
            let name = copy_bytes(&files[self.node_path[k]].file_name);
            proof {
                crate::bytes::lemma_seq_views_push(out@, name);
                assert(seq_views(out@).push(name@) =~= path_names(
                    self.node_path@,
                    catalog_view(files@),
                ).subrange(0, k + 1));
            }
            out.push(name);
            k += 1;
        }
        proof {
            assert(path_names(self.node_path@, catalog_view(files@)).subrange(
                0,
                self.node_path@.len() as int,
            ) =~= path_names(self.node_path@, catalog_view(files@)));
        }
        out
    }
}

} // verus!
