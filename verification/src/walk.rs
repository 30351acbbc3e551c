//! Building the tree: a traversal that asks for what it needs from the file
//! system, one question at a time, and is resumed with each answer.

use vstd::prelude::*;
use vstd::string::StringExecFns;
use crate::sort::SortKey;
use crate::sort::Sorter;
use crate::sort::lemma_ordered_pair;
use crate::sort::ordered;
use crate::sort::total;
use crate::sort::lemma_total_rearranged;
use crate::sort::lemma_sorted_exists;
use crate::sort::lemma_sorted_is_ordered;
use crate::text::is_dot_name;
use crate::text::lex_lt;
use crate::text::lowercase;
use crate::text::owned;
use crate::text::starts_with_dot;
use crate::tree::ConfigView;
use crate::tree::EntryView;
use crate::tree::Probe;
use crate::tree::TreeConfig;
use crate::tree::TreeEntry;
use crate::tree::TreeStats;
use crate::tree::file_name_of;
use crate::tree::forest_count;
use crate::tree::forest_view;
use crate::tree::fresh_entry;
use crate::tree::lemma_forest_view_push;
use crate::tree::lemma_tree_size_split;
use crate::tree::path_file_name;
use crate::tree::tree_count;
use crate::tree::tree_size;
use crate::tree::well_formed;

verus! {

/// One item of a directory listing: its path, and whether the path leads to
/// a directory.
#[derive(Debug, Clone)]
pub struct ChildPath {
    pub path: String,
    pub is_dir: bool,
}

/// The model of a `ChildPath`.
pub ghost struct ChildView {
    pub path: Seq<char>,
    pub is_dir: bool,
}

impl View for ChildPath {
    type V = ChildView;

    open spec fn view(&self) -> ChildView {
        ChildView { path: self.path@, is_dir: self.is_dir }
    }
}

/// The models of the items of a listing, in their order.
pub open spec fn children_view(s: Seq<ChildPath>) -> Seq<ChildView> {
    s.map_values(|c: ChildPath| c@)
}

/// An answer from the file system.
#[derive(Debug)]
pub enum WalkEvent {
    /// What was learned about the path asked for.
    Probed(Probe),
    /// The items of the directory asked for, in the order in which the file
    /// system gave them.
    Listed(Vec<ChildPath>),
    /// The directory asked for could not be read; the reason, in words.
    ListFailed(String),
}

/// What a traversal needs next.
#[derive(Debug)]
pub enum WalkRequest {
    /// Learn about this path, and answer with `WalkEvent::Probed`.
    Probe(String),
    /// List this directory, and answer with `WalkEvent::Listed` or
    /// `WalkEvent::ListFailed`.
    List(String),
    /// Nothing: the tree is complete.
    Done,
}

/// The model of a `WalkRequest`.
pub ghost enum RequestView {
    Probe(Seq<char>),
    List(Seq<char>),
    Done,
}

impl View for WalkRequest {
    type V = RequestView;

    open spec fn view(&self) -> RequestView {
        match self {
            WalkRequest::Probe(path) => RequestView::Probe(path@),
            WalkRequest::List(path) => RequestView::List(path@),
            WalkRequest::Done => RequestView::Done,
        }
    }
}

/// A directory whose children are being walked.
pub ghost struct FrameView {
    /// The directory's own entry; its children are attached when all are
    /// walked.
    pub entry: EntryView,
    /// The children still to be walked, the next one first.
    pub pending: Seq<ChildView>,
    /// The walked children, in the order of the listing.
    pub done: Seq<EntryView>,
}

/// Where a traversal stands.
pub ghost enum StageView {
    /// It waits to learn about this path.
    Probing(Seq<char>),
    /// It waits for the listing of this entry's directory.
    Listing(EntryView),
    /// It is over, and this is the tree.
    Finished(EntryView),
}

/// The model of a traversal in progress.
pub ghost struct WalkView {
    pub config: ConfigView,
    /// The counts with which the traversal began.
    pub start_directories: nat,
    pub start_files: nat,
    /// The counts now.
    pub directories: nat,
    pub files: nat,
    /// The depth of the root.
    pub base_depth: nat,
    /// The directories that are open, the root's first.
    pub frames: Seq<FrameView>,
    pub stage: StageView,
}

/// The name by which a listed path is judged: its final component, or the
/// empty name where it has none.
pub open spec fn listed_name(path: Seq<char>) -> Seq<char> {
    match path_file_name(path) {
        Some(name) => name,
        None => Seq::empty(),
    }
}

/// Whether the rules on names let the path in: it is not hidden, unless
/// hidden names are shown, and the filter keeps its name.
pub open spec fn passes(config: ConfigView, path: Seq<char>) -> bool {
    &&& config.show_hidden || !is_dot_name(listed_name(path))
    &&& config.filter.accepts(listed_name(path))
}

/// Whether a listed item becomes a child: its name passes, and it is a
/// directory where only directories are wanted.
pub open spec fn admits(config: ConfigView, child: ChildView) -> bool {
    &&& config.show_hidden || !is_dot_name(listed_name(child.path))
    &&& !config.dirs_only || child.is_dir
    &&& config.filter.accepts(listed_name(child.path))
}

/// The items of a listing that become children, in the order of the listing.
pub open spec fn admitted(config: ConfigView, listing: Seq<ChildView>) -> Seq<ChildView>
    decreases listing.len(),
{
    if listing.len() == 0 {
        Seq::empty()
    } else if admits(config, listing.last()) {
        admitted(config, listing.drop_last()).push(listing.last())
    } else {
        admitted(config, listing.drop_last())
    }
}

/// Whether the entry's directory is read: it is a directory, it is not a
/// link unless links are followed, and its depth is below the limit, if
/// there is one.
pub open spec fn expands(config: ConfigView, entry: EntryView, depth: nat) -> bool {
    &&& entry.is_dir
    &&& !entry.is_symlink || config.follow_symlinks
    &&& !(config.max_depth is Some && depth >= config.max_depth->0)
}

/// The sorter that the configuration asks for.
pub open spec fn sorter_of(config: ConfigView) -> Sorter {
    Sorter { key: config.sort_key, reverse: config.sort_reverse, dirs_first: config.dirs_first }
}

/// The error recorded on a directory that could not be read.
pub open spec fn open_error(reason: Seq<char>) -> Seq<char> {
    "error opening dir: "@ + reason
}

/// The depth of the entry that the traversal is at.
pub open spec fn depth(w: WalkView) -> nat {
    w.base_depth + w.frames.len()
}

/// The traversal after `entry` is complete: over, where no directory is
/// open; else the entry is counted and joins the walked children of the
/// innermost open directory, and the traversal moves on.
pub open spec fn settle(w: WalkView, entry: EntryView) -> WalkView
    decreases w.frames.len(), 1nat,
{
    if w.frames.len() == 0 {
        WalkView { stage: StageView::Finished(entry), ..w }
    } else {
        let top = w.frames.last();
        advance(
            WalkView {
                frames: w.frames.drop_last().push(FrameView { done: top.done.push(entry), ..top }),
                directories: if entry.is_dir { w.directories + 1 } else { w.directories },
                files: if entry.is_dir { w.files } else { w.files + 1 },
                ..w
            },
        )
    }
}

/// The traversal moving on in the innermost open directory: to the next
/// pending child, or, where none is left, closing the directory with its
/// children sorted and attached.
pub open spec fn advance(w: WalkView) -> WalkView
    decreases w.frames.len(), 0nat,
{
    if w.frames.len() == 0 {
        w
    } else {
        let top = w.frames.last();
        if top.pending.len() > 0 {
            WalkView {
                stage: StageView::Probing(top.pending[0].path),
                frames: w.frames.drop_last().push(
                    FrameView { pending: top.pending.drop_first(), ..top },
                ),
                ..w
            }
        } else {
            settle(
                WalkView { frames: w.frames.drop_last(), ..w },
                EntryView { children: ordered(sorter_of(w.config), top.done), ..top.entry },
            )
        }
    }
}

/// The traversal after an answer. An answer that was not asked for changes
/// nothing.
pub open spec fn step(w: WalkView, event: WalkEvent) -> WalkView {
    match (w.stage, event) {
        (StageView::Probing(path), WalkEvent::Probed(probe)) => {
            let entry = fresh_entry(path, probe);
            if expands(w.config, entry, depth(w)) {
                WalkView { stage: StageView::Listing(entry), ..w }
            } else {
                settle(w, entry)
            }
        },
        (StageView::Listing(entry), WalkEvent::Listed(children)) => advance(
            WalkView {
                frames: w.frames.push(
                    FrameView {
                        entry: entry,
                        pending: admitted(w.config, children_view(children@)),
                        done: Seq::empty(),
                    },
                ),
                ..w
            },
        ),
        (StageView::Listing(entry), WalkEvent::ListFailed(reason)) => settle(
            w,
            EntryView { error: Some(open_error(reason@)), ..entry },
        ),
        _ => w,
    }
}

/// The traversal after a run of answers, taken one after the other.
pub open spec fn run(w: WalkView, events: Seq<WalkEvent>) -> WalkView
    decreases events.len(),
{
    if events.len() == 0 {
        w
    } else {
        step(run(w, events.drop_last()), events.last())
    }
}

/// The traversal at its start: it waits to learn about the root.
pub open spec fn begun(path: Seq<char>, config: ConfigView, stats: TreeStats, depth: usize) -> WalkView {
    WalkView {
        config: config,
        start_directories: stats.directories as nat,
        start_files: stats.files as nat,
        directories: stats.directories as nat,
        files: stats.files as nat,
        base_depth: depth as nat,
        frames: Seq::empty(),
        stage: StageView::Probing(path),
    }
}

/// What the traversal asks for.
pub open spec fn wanted(w: WalkView) -> RequestView {
    match w.stage {
        StageView::Probing(path) => RequestView::Probe(path),
        StageView::Listing(entry) => RequestView::List(entry.path),
        StageView::Finished(_) => RequestView::Done,
    }
}

/// What holds of a finished tree whose root is at `depth`: only directories
/// below the depth limit have children, and of the links among them only
/// those that are followed; a directory that could not be read has none;
/// every child passed the rules on names; and siblings stand in the order
/// that the configuration asks for.
pub open spec fn sound(config: ConfigView, e: EntryView, depth: nat) -> bool
    decreases e,
{
    &&& !expands(config, e, depth) ==> e.children.len() == 0
    &&& e.error is Some ==> e.children.len() == 0
    &&& forall|i: int| 0 <= i < e.children.len() ==> sound(config, #[trigger] e.children[i], depth + 1)
    &&& forall|i: int| 0 <= i < e.children.len() ==> passes(config, (#[trigger] e.children[i]).path)
    &&& forall|i: int, j: int|
        0 <= i < j < e.children.len() ==> sorter_of(config).in_order(
            #[trigger] e.children[i],
            #[trigger] e.children[j],
        )
}

/// Whether no entry at or beyond the depth `limit` has children.
pub open spec fn limited(e: EntryView, depth: nat, limit: nat) -> bool
    decreases e,
{
    &&& depth >= limit ==> e.children.len() == 0
    &&& forall|i: int| 0 <= i < e.children.len() ==> limited(#[trigger] e.children[i], depth + 1, limit)
}

/// Whether no link in the tree has children.
pub open spec fn links_closed(e: EntryView) -> bool
    decreases e,
{
    &&& e.is_symlink ==> e.children.len() == 0
    &&& forall|i: int| 0 <= i < e.children.len() ==> links_closed(#[trigger] e.children[i])
}

/// What holds of an open directory at `depth`.
pub open spec fn frame_ok(config: ConfigView, f: FrameView, depth: nat) -> bool {
    &&& expands(config, f.entry, depth)
    &&& f.entry.children.len() == 0
    &&& f.entry.error is None
    &&& forall|i: int| 0 <= i < f.done.len() ==> sound(config, #[trigger] f.done[i], depth + 1)
    &&& forall|i: int| 0 <= i < f.done.len() ==> passes(config, (#[trigger] f.done[i]).path)
    &&& forall|i: int| 0 <= i < f.pending.len() ==> passes(config, (#[trigger] f.pending[i]).path)
}

/// The number of entries, directories or others, among the walked children
/// of the open directories and everything below them.
pub open spec fn counted(frames: Seq<FrameView>, dirs: bool) -> nat
    decreases frames.len(),
{
    if frames.len() == 0 {
        0
    } else {
        counted(frames.drop_last(), dirs) + forest_count(frames.last().done, dirs)
    }
}

/// What holds of the open directories, and of the counts where `extra_dirs`
/// and `extra_files` entries are complete but not yet among the walked
/// children.
pub open spec fn frames_ok(w: WalkView, extra_dirs: nat, extra_files: nat) -> bool {
    &&& forall|k: int|
        0 <= k < w.frames.len() ==> frame_ok(w.config, #[trigger] w.frames[k], w.base_depth + k as nat)
            && (k > 0 ==> passes(w.config, w.frames[k].entry.path))
    &&& w.directories == w.start_directories + counted(w.frames, true) + extra_dirs
    &&& w.files == w.start_files + counted(w.frames, false) + extra_files
}

/// The invariant of a traversal.
pub open spec fn wf(w: WalkView) -> bool {
    match w.stage {
        StageView::Probing(path) => {
            &&& frames_ok(w, 0, 0)
            &&& w.frames.len() > 0 ==> passes(w.config, path)
        },
        StageView::Listing(entry) => {
            &&& frames_ok(w, 0, 0)
            &&& expands(w.config, entry, depth(w))
            &&& entry.children.len() == 0
            &&& entry.error is None
            &&& w.frames.len() > 0 ==> passes(w.config, entry.path)
        },
        StageView::Finished(entry) => {
            &&& w.frames.len() == 0
            &&& sound(w.config, entry, w.base_depth)
            &&& w.directories == w.start_directories + forest_count(entry.children, true)
            &&& w.files == w.start_files + forest_count(entry.children, false)
        },
    }
}

/// The count over a forest is the sum of the counts over its trees.
proof fn lemma_forest_count_total(s: Seq<EntryView>, dirs: bool, f: spec_fn(EntryView) -> nat)
    requires
        forall|e: EntryView| #[trigger] f(e) == tree_count(e, dirs),
    ensures
        forest_count(s, dirs) == total(s, f),
    decreases s.len(),
{
    if s.len() > 0 {
        lemma_forest_count_total(s.drop_last(), dirs, f);
    }
}

/// Sorting siblings changes neither what they are nor how many entries
/// stand below them.
pub proof fn lemma_ordered_keeps(sorter: Sorter, s: Seq<EntryView>, dirs: bool)
    ensures
        ordered(sorter, s).len() == s.len(),
        forest_count(ordered(sorter, s), dirs) == forest_count(s, dirs),
        forall|i: int|
            0 <= i < s.len() ==> exists|k: int|
                0 <= k < s.len() && (#[trigger] ordered(sorter, s)[i]) == s[k],
        forall|i: int, j: int|
            0 <= i < j < s.len() ==> sorter.in_order(
                #[trigger] ordered(sorter, s)[i],
                #[trigger] ordered(sorter, s)[j],
            ),
{
    lemma_sorted_exists(sorter, s);
    let after = ordered(sorter, s);
    let p = choose|p: Seq<int>| sorter.sorts(s, after, p);
    let f = |e: EntryView| tree_count(e, dirs);
    lemma_forest_count_total(s, dirs, f);
    lemma_forest_count_total(after, dirs, f);
    lemma_total_rearranged(s, after, p, f);
    assert forall|i: int| 0 <= i < s.len() implies exists|k: int|
        0 <= k < s.len() && (#[trigger] after[i]) == s[k] by {
        assert(after[i] == s[p[i]]);
    }
}

/// Every admitted item passes the rules on names.
pub proof fn lemma_admitted_passes(config: ConfigView, listing: Seq<ChildView>)
    ensures
        forall|i: int|
            0 <= i < admitted(config, listing).len() ==> passes(
                config,
                (#[trigger] admitted(config, listing)[i]).path,
            ),
    decreases listing.len(),
{
    if listing.len() > 0 {
        let rest = admitted(config, listing.drop_last());
        lemma_admitted_passes(config, listing.drop_last());
        assert forall|i: int| 0 <= i < admitted(config, listing).len() implies passes(
            config,
            (#[trigger] admitted(config, listing)[i]).path,
        ) by {
            if i < rest.len() {
                assert(admitted(config, listing)[i] == rest[i]);
            }
        }
    }
}

/// Replacing the innermost open directory changes the count by what its
/// walked children hold.
proof fn lemma_counted_push(frames: Seq<FrameView>, f: FrameView, dirs: bool)
    ensures
        counted(frames.push(f), dirs) == counted(frames, dirs) + forest_count(f.done, dirs),
{
    assert(frames.push(f).drop_last() =~= frames);
}

/// A walked child adds its whole tree to the count.
proof fn lemma_forest_count_push(s: Seq<EntryView>, e: EntryView, dirs: bool)
    ensures
        forest_count(s.push(e), dirs) == forest_count(s, dirs) + tree_count(e, dirs),
{
    assert(s.push(e).drop_last() =~= s);
}

/// Completing an entry keeps the invariant.
pub proof fn lemma_settle_wf(w: WalkView, entry: EntryView)
    requires
        frames_ok(w, forest_count(entry.children, true), forest_count(entry.children, false)),
        sound(w.config, entry, depth(w)),
        w.frames.len() > 0 ==> passes(w.config, entry.path),
    ensures
        wf(settle(w, entry)),
    decreases w.frames.len(), 1nat,
{
    if w.frames.len() > 0 {
        let top = w.frames.last();
        let rest = w.frames.drop_last();
        let top1 = FrameView { done: top.done.push(entry), ..top };
        let w1 = WalkView {
            frames: rest.push(top1),
            directories: if entry.is_dir { w.directories + 1 } else { w.directories },
            files: if entry.is_dir { w.files } else { w.files + 1 },
            ..w
        };
        assert(w.frames =~= rest.push(top));
        lemma_counted_push(rest, top, true);
        lemma_counted_push(rest, top, false);
        lemma_counted_push(rest, top1, true);
        lemma_counted_push(rest, top1, false);
        lemma_forest_count_push(top.done, entry, true);
        lemma_forest_count_push(top.done, entry, false);
        assert forall|k: int| 0 <= k < w1.frames.len() implies frame_ok(
            w1.config,
            #[trigger] w1.frames[k],
            w1.base_depth + k as nat,
        ) && (k > 0 ==> passes(w1.config, w1.frames[k].entry.path)) by {
            assert(frame_ok(w.config, w.frames[k], w.base_depth + k as nat));
            if k < w1.frames.len() - 1 {
                assert(w1.frames[k] == w.frames[k]);
            } else {
                assert(w1.frames[k] == top1);
                assert forall|i: int| 0 <= i < top1.done.len() implies sound(
                    w.config,
                    #[trigger] top1.done[i],
                    w.base_depth + k as nat + 1,
                ) && passes(w.config, top1.done[i].path) by {
                    if i < top.done.len() {
                        assert(top1.done[i] == top.done[i]);
                    }
                }
            }
        }
        lemma_advance_wf(w1);
    }
}

/// Moving on in the innermost open directory keeps the invariant.
pub proof fn lemma_advance_wf(w: WalkView)
    requires
        w.frames.len() > 0,
        frames_ok(w, 0, 0),
    ensures
        wf(advance(w)),
    decreases w.frames.len(), 0nat,
{
    let top = w.frames.last();
    let rest = w.frames.drop_last();
    assert(w.frames =~= rest.push(top));
    lemma_counted_push(rest, top, true);
    lemma_counted_push(rest, top, false);
    let k_top = w.frames.len() - 1;
    assert(frame_ok(w.config, w.frames[k_top], w.base_depth + k_top as nat));
    if top.pending.len() > 0 {
        let top1 = FrameView { pending: top.pending.drop_first(), ..top };
        let w1 = WalkView {
            stage: StageView::Probing(top.pending[0].path),
            frames: rest.push(top1),
            ..w
        };
        lemma_counted_push(rest, top1, true);
        lemma_counted_push(rest, top1, false);
        assert forall|k: int| 0 <= k < w1.frames.len() implies frame_ok(
            w1.config,
            #[trigger] w1.frames[k],
            w1.base_depth + k as nat,
        ) && (k > 0 ==> passes(w1.config, w1.frames[k].entry.path)) by {
            assert(frame_ok(w.config, w.frames[k], w.base_depth + k as nat));
            if k < w1.frames.len() - 1 {
                assert(w1.frames[k] == w.frames[k]);
            } else {
                assert(w1.frames[k] == top1);
                assert forall|i: int| 0 <= i < top1.pending.len() implies passes(
                    w.config,
                    (#[trigger] top1.pending[i]).path,
                ) by {
                    assert(top1.pending[i] == top.pending[i + 1]);
                }
            }
        }
        assert(passes(w.config, top.pending[0].path));
    } else {
        let sorter = sorter_of(w.config);
        let children = ordered(sorter, top.done);
        let entry = EntryView { children: children, ..top.entry };
        let w1 = WalkView { frames: rest, ..w };
        lemma_ordered_keeps(sorter, top.done, true);
        lemma_ordered_keeps(sorter, top.done, false);
        assert forall|k: int| 0 <= k < w1.frames.len() implies frame_ok(
            w1.config,
            #[trigger] w1.frames[k],
            w1.base_depth + k as nat,
        ) && (k > 0 ==> passes(w1.config, w1.frames[k].entry.path)) by {
            assert(frame_ok(w.config, w.frames[k], w.base_depth + k as nat));
            assert(w1.frames[k] == w.frames[k]);
        }
        assert forall|i: int| 0 <= i < children.len() implies sound(
            w.config,
            #[trigger] children[i],
            depth(w1) + 1,
        ) && passes(w.config, children[i].path) by {
            let k = choose|k: int| 0 <= k < top.done.len() && children[i] == top.done[k];
            assert(sound(w.config, top.done[k], w.base_depth + k_top as nat + 1));
        }
        assert(sound(w.config, entry, depth(w1)));
        if w1.frames.len() > 0 {
            assert(k_top > 0 ==> passes(w.config, w.frames[k_top].entry.path));
        }
        lemma_settle_wf(w1, entry);
    }
}

/// An answer keeps the invariant of the traversal.
pub proof fn lemma_step_wf(w: WalkView, event: WalkEvent)
    requires
        wf(w),
    ensures
        wf(step(w, event)),
{
    match (w.stage, event) {
        (StageView::Probing(path), WalkEvent::Probed(probe)) => {
            let entry = fresh_entry(path, probe);
            if !expands(w.config, entry, depth(w)) {
                lemma_settle_wf(w, entry);
            }
        },
        (StageView::Listing(entry), WalkEvent::Listed(children)) => {
            let pending = admitted(w.config, children_view(children@));
            let f = FrameView { entry: entry, pending: pending, done: Seq::empty() };
            let w1 = WalkView { frames: w.frames.push(f), ..w };
            lemma_admitted_passes(w.config, children_view(children@));
            lemma_counted_push(w.frames, f, true);
            lemma_counted_push(w.frames, f, false);
            assert forall|k: int| 0 <= k < w1.frames.len() implies frame_ok(
                w1.config,
                #[trigger] w1.frames[k],
                w1.base_depth + k as nat,
            ) && (k > 0 ==> passes(w1.config, w1.frames[k].entry.path)) by {
                if k < w.frames.len() {
                    assert(w1.frames[k] == w.frames[k]);
                    assert(frame_ok(w.config, w.frames[k], w.base_depth + k as nat));
                }
            }
            lemma_advance_wf(w1);
        },
        (StageView::Listing(entry), WalkEvent::ListFailed(reason)) => {
            lemma_settle_wf(w, EntryView { error: Some(open_error(reason@)), ..entry });
        },
        _ => {},
    }
}

/// A sound tree is well formed: what is not a directory has no children.
pub proof fn lemma_sound_well_formed(config: ConfigView, e: EntryView, depth: nat)
    requires
        sound(config, e, depth),
    ensures
        well_formed(e),
    decreases e,
{
    assert forall|i: int| 0 <= i < e.children.len() implies well_formed(#[trigger] e.children[i]) by {
        lemma_sound_well_formed(config, e.children[i], depth + 1);
    }
}

/// With a depth limit, no entry at or beyond the limit has children,
/// whatever the file system holds there.
pub proof fn lemma_depth_limit(config: ConfigView, e: EntryView, depth: nat)
    requires
        sound(config, e, depth),
        config.max_depth is Some,
    ensures
        limited(e, depth, config.max_depth->0 as nat),
    decreases e,
{
    assert forall|i: int| 0 <= i < e.children.len() implies limited(
        #[trigger] e.children[i],
        depth + 1,
        config.max_depth->0 as nat,
    ) by {
        lemma_depth_limit(config, e.children[i], depth + 1);
    }
}

/// Where links are not followed, no link has children, whatever it points
/// to.
pub proof fn lemma_links_closed(config: ConfigView, e: EntryView, depth: nat)
    requires
        sound(config, e, depth),
        !config.follow_symlinks,
    ensures
        links_closed(e),
    decreases e,
{
    assert forall|i: int| 0 <= i < e.children.len() implies links_closed(#[trigger] e.children[i]) by {
        lemma_links_closed(config, e.children[i], depth + 1);
    }
}

/// When a traversal is over, the directories and files counted since its
/// start are the entries of the tree without the root: the directories
/// among them and the others.
pub proof fn lemma_counts(w: WalkView)
    requires
        wf(w),
        w.stage is Finished,
    ensures
        w.directories - w.start_directories == tree_count(w.stage->Finished_0, true) - (if w.stage->Finished_0.is_dir { 1nat } else { 0nat }),
        w.files - w.start_files == tree_count(w.stage->Finished_0, false) - (if w.stage->Finished_0.is_dir { 0nat } else { 1nat }),
        (w.directories - w.start_directories) + (w.files - w.start_files) == tree_size(
            w.stage->Finished_0,
        ) - 1,
{
    lemma_tree_size_split(w.stage->Finished_0);
}

/// The tree of a traversal that is over: it is well formed; where the
/// configuration limits the depth, no entry at or beyond the limit has
/// children, counted from the depth at which the root was said to stand;
/// where links are not followed, no link has children; and the entries
/// counted are those of the tree without its root.
pub proof fn lemma_finished_tree(w: WalkView)
    requires
        wf(w),
        w.stage is Finished,
    ensures
        well_formed(w.stage->Finished_0),
        w.config.max_depth is Some ==> limited(
            w.stage->Finished_0,
            w.base_depth,
            w.config.max_depth->0 as nat,
        ),
        !w.config.follow_symlinks ==> links_closed(w.stage->Finished_0),
        (w.directories - w.start_directories) + (w.files - w.start_files) == tree_size(
            w.stage->Finished_0,
        ) - 1,
{
    let tree = w.stage->Finished_0;
    lemma_sound_well_formed(w.config, tree, w.base_depth);
    if !w.config.follow_symlinks {
        lemma_links_closed(w.config, tree, w.base_depth);
    }
    if w.config.max_depth is Some {
        lemma_depth_limit(w.config, tree, w.base_depth);
    }
    lemma_counts(w);
}

/// Whether the counters can take every entry that one answer may complete.
pub open spec fn has_room(w: WalkView) -> bool {
    &&& w.directories + w.frames.len() <= usize::MAX
    &&& w.files + w.frames.len() <= usize::MAX
}

/// A directory whose children are being walked. `pending` holds the children
/// still to be walked, the next one last.
struct Frame {
    entry: TreeEntry,
    pending: Vec<ChildPath>,
    done: Vec<TreeEntry>,
}

/// Where a traversal stands: what it waits for, or the finished tree.
enum Stage {
    Probing(String),
    Listing(TreeEntry),
    Finished(TreeEntry),
}

/// A traversal in progress. It is begun by `walk_directory`, says by
/// `request` what it needs, and is taken further by `resume`.
pub struct Walk {
    config: TreeConfig,
    started: TreeStats,
    stats: TreeStats,
    base_depth: usize,
    frames: Vec<Frame>,
    stage: Stage,
}

/// The model of an open directory.
spec fn frame_view(f: Frame) -> FrameView {
    FrameView {
        entry: f.entry@,
        pending: children_view(f.pending@).reverse(),
        done: forest_view(f.done@),
    }
}

/// The models of the open directories, the root's first.
spec fn frames_view(frames: Seq<Frame>) -> Seq<FrameView> {
    frames.map_values(|f: Frame| frame_view(f))
}

/// The model of a stage.
spec fn stage_view(stage: Stage) -> StageView {
    match stage {
        Stage::Probing(path) => StageView::Probing(path@),
        Stage::Listing(entry) => StageView::Listing(entry@),
        Stage::Finished(entry) => StageView::Finished(entry@),
    }
}

/// The model of the traversal that is made of these parts.
spec fn assemble(
    config: ConfigView,
    started: TreeStats,
    stats: TreeStats,
    base_depth: usize,
    frames: Seq<Frame>,
    stage: StageView,
) -> WalkView {
    WalkView {
        config: config,
        start_directories: started.directories as nat,
        start_files: started.files as nat,
        directories: stats.directories as nat,
        files: stats.files as nat,
        base_depth: base_depth as nat,
        frames: frames_view(frames),
        stage: stage,
    }
}

impl View for Walk {
    type V = WalkView;

    closed spec fn view(&self) -> WalkView {
        assemble(
            self.config@,
            self.started,
            self.stats,
            self.base_depth,
            self.frames@,
            stage_view(self.stage),
        )
    }
}

/// Tells whether a listed item becomes a child.
fn admits_child(config: &TreeConfig, child: &ChildPath) -> (yes: bool)
    ensures
        yes == admits(config@, child@),
{
    let name = match file_name_of(child.path.as_str()) {
        Some(name) => name,
        None => String::new(),
    };
    if !config.show_hidden && starts_with_dot(name.as_str()) {
        return false;
    }
    if config.dirs_only && !child.is_dir {
        return false;
    }
    config.filter.matches(name.as_str(), child.is_dir)
}

/// Keeps the items of a listing that become children. They come back with
/// the first one last.
fn keep_admitted(config: &TreeConfig, children: Vec<ChildPath>) -> (pending: Vec<ChildPath>)
    ensures
        children_view(pending@).reverse() == admitted(config@, children_view(children@)),
{
    let ghost all = children_view(children@);
    let mut children = children;
    let mut pending: Vec<ChildPath> = Vec::new();
    assert(children_view(pending@).reverse() =~= Seq::empty());
    assert(admitted(config@, all) =~= admitted(config@, all) + Seq::<ChildView>::empty());
    while children.len() > 0
        invariant
            admitted(config@, all) == admitted(config@, children_view(children@)) + children_view(
                pending@,
            ).reverse(),
        decreases children.len(),
    {
        let ghost before = children_view(children@);
        let ghost kept = children_view(pending@).reverse();
        let child = children.pop().unwrap();
        assert(children_view(children@) =~= before.drop_last());
        assert(child@ == before.last());
        if admits_child(config, &child) {
            pending.push(child);
            assert(children_view(pending@).reverse() =~= seq![child@] + kept);
            assert(admitted(config@, before.drop_last()).push(child@) + kept =~= admitted(
                config@,
                before.drop_last(),
            ) + (seq![child@] + kept));
        }
    }
    assert(admitted(config@, children_view(children@)) =~= Seq::empty());
    assert(admitted(config@, all) =~= children_view(pending@).reverse());
    pending
}

/// Tells whether the depth `base + level` has reached the limit.
fn at_limit(max_depth: Option<usize>, base: usize, level: usize) -> (reached: bool)
    ensures
        reached == (max_depth is Some && base + level >= max_depth->0),
{
    match max_depth {
        Some(limit) => limit <= base || limit - base <= level,
        None => false,
    }
}

/// Completes `entry` in the traversal made of the parts given.
fn settle_entry(
    config: TreeConfig,
    started: TreeStats,
    stats: TreeStats,
    base_depth: usize,
    frames: Vec<Frame>,
    entry: TreeEntry,
    Ghost(stage): Ghost<StageView>,
) -> (next: Walk)
    requires
        has_room(assemble(config@, started, stats, base_depth, frames@, stage)),
    ensures
        next@ == settle(assemble(config@, started, stats, base_depth, frames@, stage), entry@),
    decreases frames.len(), 1nat,
{
    let ghost w = assemble(config@, started, stats, base_depth, frames@, stage);
    if frames.len() == 0 {
        return Walk { config, started, stats, base_depth, frames, stage: Stage::Finished(entry) };
    }
    let mut stats = stats;
    let mut frames = frames;
    let mut top = frames.pop().unwrap();
    proof {
        assert(frames_view(frames@) =~= w.frames.drop_last());
        assert(frame_view(top) == w.frames.last());
        lemma_forest_view_push(top.done@, entry);
    }
    if entry.is_dir {
        stats.directories = stats.directories + 1;
    } else {
        stats.files = stats.files + 1;
    }
    top.done.push(entry);
    let ghost rest = frames@;
    frames.push(top);
    assert(frames_view(frames@) =~= frames_view(rest).push(frame_view(top)));
    advance_walk(config, started, stats, base_depth, frames, Ghost(stage))
}

/// Moves on in the innermost open directory of the traversal made of the
/// parts given.
fn advance_walk(
    config: TreeConfig,
    started: TreeStats,
    stats: TreeStats,
    base_depth: usize,
    frames: Vec<Frame>,
    Ghost(stage): Ghost<StageView>,
) -> (next: Walk)
    requires
        frames.len() > 0,
        stats.directories + frames.len() - 1 <= usize::MAX,
        stats.files + frames.len() - 1 <= usize::MAX,
    ensures
        next@ == advance(assemble(config@, started, stats, base_depth, frames@, stage)),
    decreases frames.len(), 0nat,
{
    let ghost w = assemble(config@, started, stats, base_depth, frames@, stage);
    let mut frames = frames;
    let mut top = frames.pop().unwrap();
    let ghost top0 = frame_view(top);
    let ghost stack = children_view(top.pending@);
    proof {
        assert(frames_view(frames@) =~= w.frames.drop_last());
        assert(top0 == w.frames.last());
    }
    match top.pending.pop() {
        Some(child) => {
            proof {
                assert(children_view(top.pending@) =~= stack.drop_last());
                assert(child@ == stack.last());
                assert(stack.reverse()[0] == stack.last());
                assert(children_view(top.pending@).reverse() =~= stack.reverse().drop_first());
            }
            let ghost rest = frames@;
            frames.push(top);
            assert(frames_view(frames@) =~= frames_view(rest).push(frame_view(top)));
            Walk { config, started, stats, base_depth, frames, stage: Stage::Probing(child.path) }
        },
        None => {
            assert(stack.len() == 0);
            assert(top0.pending.len() == 0);
            let Frame { entry: mut parent, pending: _, done: mut done } = top;
            let ghost siblings = forest_view(done@);
            let sorter = Sorter::new(config.sort_key, config.sort_reverse, config.dirs_first);
            sorter.sort(&mut done);
            proof {
                lemma_sorted_is_ordered(sorter, siblings, forest_view(done@));
            }
            parent.children = done;
            assert(parent@ == (EntryView {
                children: ordered(sorter_of(config@), top0.done),
                ..top0.entry
            }));
            settle_entry(config, started, stats, base_depth, frames, parent, Ghost(stage))
        },
    }
}

/// Begins the traversal of `path`, whose entry will stand at
/// `current_depth`. The directories and files met are added to `stats`.
/// The traversal first asks to learn about `path`.
pub fn walk_directory(path: &str, config: TreeConfig, stats: TreeStats, current_depth: usize) -> (walk:
    Walk)
    ensures
        walk@ == begun(path@, config@, stats, current_depth),
        wf(walk@),
{
    let walk = Walk {
        config,
        started: stats,
        stats,
        base_depth: current_depth,
        frames: Vec::new(),
        stage: Stage::Probing(owned(path)),
    };
    assert(walk@.frames =~= Seq::empty());
    walk
}

impl Walk {
    /// What the traversal needs next.
    pub fn request(&self) -> (request: WalkRequest)
        ensures
            request@ == wanted(self@),
    {
        match &self.stage {
            Stage::Probing(path) => WalkRequest::Probe(path.clone()),
            Stage::Listing(entry) => WalkRequest::List(entry.path.clone()),
            Stage::Finished(_) => WalkRequest::Done,
        }
    }

    /// The counts so far.
    pub fn stats(&self) -> (stats: TreeStats)
        ensures
            stats.directories == self@.directories,
            stats.files == self@.files,
    {
        self.stats
    }

    /// Tells whether the counters can take every entry that the next answer
    /// may complete.
    pub fn has_room(&self) -> (yes: bool)
        ensures
            yes == has_room(self@),
    {
        let open = self.frames.len();
        assert(self@.frames.len() == open);
        self.stats.directories <= usize::MAX - open && self.stats.files <= usize::MAX - open
    }

    /// Takes the traversal further with an answer from the file system. An
    /// answer that was not asked for changes nothing.
    pub fn resume(self, event: WalkEvent) -> (next: Walk)
        requires
            wf(self@),
            has_room(self@),
        ensures
            next@ == step(self@, event),
            wf(next@),
    {
        proof {
            lemma_step_wf(self@, event);
        }
        let ghost w = self@;
        let Walk { config, started, stats, base_depth, frames, stage } = self;
        assert(w.frames.len() == frames.len());
        match stage {
            Stage::Probing(path) => {
                match event {
                    WalkEvent::Probed(probe) => {
                        let entry = TreeEntry::new(path, probe);
                        if entry.is_dir && (!entry.is_symlink || config.follow_symlinks) && !at_limit(
                            config.max_depth,
                            base_depth,
                            frames.len(),
                        ) {
                            Walk { config, started, stats, base_depth, frames, stage: Stage::Listing(entry) }
                        } else {
                            settle_entry(config, started, stats, base_depth, frames, entry, Ghost(w.stage))
                        }
                    },
                    _ => Walk { config, started, stats, base_depth, frames, stage: Stage::Probing(path) },
                }
            },
            Stage::Listing(entry) => {
                match event {
                    WalkEvent::Listed(children) => {
                        let pending = keep_admitted(&config, children);
                        let ghost rest = frames@;
                        let mut frames = frames;
                        let frame = Frame { entry, pending, done: Vec::new() };
                        frames.push(frame);
                        proof {
                            assert(frames_view(frames@) =~= frames_view(rest).push(frame_view(frame)));
                            assert(forest_view(frame.done@) =~= Seq::empty());
                        }
                        advance_walk(config, started, stats, base_depth, frames, Ghost(w.stage))
                    },
                    WalkEvent::ListFailed(reason) => {
                        let mut entry = entry;
                        let mut text = owned("error opening dir: ");
                        text.append(reason.as_str());
                        entry.error = Some(text);
                        settle_entry(config, started, stats, base_depth, frames, entry, Ghost(w.stage))
                    },
                    WalkEvent::Probed(_) => Walk {
                        config,
                        started,
                        stats,
                        base_depth,
                        frames,
                        stage: Stage::Listing(entry),
                    },
                }
            },
            Stage::Finished(entry) => Walk {
                config,
                started,
                stats,
                base_depth,
                frames,
                stage: Stage::Finished(entry),
            },
        }
    }

    /// Ends the traversal: the tree and the counts where it is over, else
    /// nothing.
    pub fn finish(self) -> (result: Option<(TreeEntry, TreeStats)>)
        ensures
            match self@.stage {
                StageView::Finished(tree) => {
                    &&& result matches Some((entry, stats))
                    &&& entry@ == tree
                    &&& stats.directories == self@.directories
                    &&& stats.files == self@.files
                },
                _ => result is None,
            },
    {
        match self.stage {
            Stage::Finished(tree) => Some((tree, self.stats)),
            _ => None,
        }
    }
}

/// A run of answers keeps the invariant of the traversal.
pub proof fn lemma_run_wf(w: WalkView, events: Seq<WalkEvent>)
    requires
        wf(w),
    ensures
        wf(run(w, events)),
    decreases events.len(),
{
    if events.len() > 0 {
        lemma_run_wf(w, events.drop_last());
        lemma_step_wf(run(w, events.drop_last()), events.last());
    }
}

/// The traversal that waits for the first of the two children of the root
/// directory `root`.
pub open spec fn at_first_child(w: WalkView, root: EntryView, first: ChildView, second: ChildView) -> WalkView {
    WalkView {
        stage: StageView::Probing(first.path),
        frames: seq![FrameView { entry: root, pending: seq![second], done: Seq::empty() }],
        ..w
    }
}

/// The traversal that waits for the second of the two children, the first
/// being complete as `one`.
pub open spec fn at_second_child(w: WalkView, root: EntryView, one: EntryView, second: ChildView) -> WalkView {
    WalkView {
        stage: StageView::Probing(second.path),
        frames: seq![FrameView { entry: root, pending: Seq::empty(), done: seq![one] }],
        directories: if one.is_dir { w.directories + 1 } else { w.directories },
        files: if one.is_dir { w.files } else { w.files + 1 },
        ..w
    }
}

/// The traversal that is over, with the two children `one` and `two`
/// sorted and attached to the root.
pub open spec fn with_both_children(w: WalkView, root: EntryView, one: EntryView, two: EntryView) -> WalkView {
    WalkView {
        stage: StageView::Finished(
            EntryView { children: ordered(sorter_of(w.config), seq![one, two]), ..root },
        ),
        frames: Seq::empty(),
        directories: w.directories + (if one.is_dir { 1nat } else { 0nat }) + (if two.is_dir {
            1nat
        } else {
            0nat
        }),
        files: w.files + (if one.is_dir { 0nat } else { 1nat }) + (if two.is_dir { 0nat } else { 1nat }),
        ..w
    }
}

/// The root directory and its listing of two admitted children bring the
/// traversal to the first child.
pub proof fn lemma_to_first_child(
    w: WalkView,
    path: Seq<char>,
    probe: Probe,
    listing: Vec<ChildPath>,
    first: ChildView,
    second: ChildView,
)
    requires
        w.stage == StageView::Probing(path),
        w.frames.len() == 0,
        expands(w.config, fresh_entry(path, probe), w.base_depth),
        admitted(w.config, children_view(listing@)) == seq![first, second],
    ensures
        step(step(w, WalkEvent::Probed(probe)), WalkEvent::Listed(listing)) == at_first_child(
            w,
            fresh_entry(path, probe),
            first,
            second,
        ),
{
    let root = fresh_entry(path, probe);
    let listed = WalkView { stage: StageView::Listing(root), ..w };
    assert(step(w, WalkEvent::Probed(probe)) == listed);
    let frame = FrameView { entry: root, pending: seq![first, second], done: Seq::empty() };
    let opened = WalkView { frames: listed.frames.push(frame), ..listed };
    assert(step(listed, WalkEvent::Listed(listing)) == advance(opened));
    assert(opened.frames.last() == frame);
    assert(frame.pending.drop_first() =~= seq![second]);
    assert(opened.frames.drop_last().push(FrameView { pending: seq![second], ..frame }) =~= seq![
        FrameView { entry: root, pending: seq![second], done: Seq::empty() },
    ]);
}

/// Completing the first child brings the traversal to the second.
pub proof fn lemma_first_child_settles(
    w: WalkView,
    at: WalkView,
    root: EntryView,
    one: EntryView,
    first: ChildView,
    second: ChildView,
)
    requires
        at.frames == at_first_child(w, root, first, second).frames,
        at.config == w.config,
        at.start_directories == w.start_directories,
        at.start_files == w.start_files,
        at.directories == w.directories,
        at.files == w.files,
        at.base_depth == w.base_depth,
    ensures
        settle(at, one) == at_second_child(w, root, one, second),
{
    let frame = at.frames.last();
    let grown = FrameView { done: frame.done.push(one), ..frame };
    let counted_in = WalkView {
        frames: at.frames.drop_last().push(grown),
        directories: if one.is_dir { at.directories + 1 } else { at.directories },
        files: if one.is_dir { at.files } else { at.files + 1 },
        ..at
    };
    assert(settle(at, one) == advance(counted_in));
    assert(counted_in.frames.last() == grown);
    assert(grown.pending.len() == 1);
    assert(grown.pending.drop_first() =~= Seq::<ChildView>::empty());
    assert(grown.done =~= seq![one]);
    assert(counted_in.frames.drop_last().push(FrameView { pending: grown.pending.drop_first(), ..grown })
        =~= seq![FrameView { entry: root, pending: Seq::empty(), done: seq![one] }]);
}

/// Completing the second child ends the traversal.
pub proof fn lemma_second_child_settles(
    w: WalkView,
    at: WalkView,
    root: EntryView,
    one: EntryView,
    two: EntryView,
    second: ChildView,
)
    requires
        w.frames.len() == 0,
        at.frames == at_second_child(w, root, one, second).frames,
        at.config == w.config,
        at.start_directories == w.start_directories,
        at.start_files == w.start_files,
        at.directories == at_second_child(w, root, one, second).directories,
        at.files == at_second_child(w, root, one, second).files,
        at.base_depth == w.base_depth,
    ensures
        settle(at, two) == with_both_children(w, root, one, two),
{
    reveal_with_fuel(settle, 2);
    let frame = at.frames.last();
    let grown = FrameView { done: frame.done.push(two), ..frame };
    let counted_in = WalkView {
        frames: at.frames.drop_last().push(grown),
        directories: if two.is_dir { at.directories + 1 } else { at.directories },
        files: if two.is_dir { at.files } else { at.files + 1 },
        ..at
    };
    assert(settle(at, two) == advance(counted_in));
    assert(counted_in.frames.last() == grown);
    assert(grown.pending.len() == 0);
    assert(grown.done =~= seq![one, two]);
    let closed = WalkView { frames: counted_in.frames.drop_last(), ..counted_in };
    assert(closed.frames =~= Seq::<FrameView>::empty());
    let tree = EntryView { children: ordered(sorter_of(w.config), grown.done), ..root };
    assert(advance(counted_in) == settle(closed, tree));
    assert(settle(closed, tree) == WalkView { stage: StageView::Finished(tree), ..closed });
    assert(w.frames =~= Seq::<FrameView>::empty());
}

/// Whether the configuration makes the default choices for a traversal:
/// hidden names are left out, files are kept, there is no depth limit and
/// no pattern, and siblings are sorted by name.
pub open spec fn default_choices(config: ConfigView) -> bool {
    &&& !config.show_hidden
    &&& !config.dirs_only
    &&& config.max_depth is None
    &&& config.filter.include_texts.len() == 0
    &&& config.filter.exclude_texts.len() == 0
    &&& config.sort_key == SortKey::Name
    &&& !config.sort_reverse
    &&& !config.dirs_first
}

/// Whether the probe found a directory that is not a link.
pub open spec fn plain_directory(probe: Probe) -> bool {
    probe.metadata is Some && probe.metadata->0.is_dir && probe.is_symlink != Some(true)
}

/// Whether the probe found something that is not a directory.
pub open spec fn no_directory(probe: Probe) -> bool {
    !(probe.metadata is Some && probe.metadata->0.is_dir)
}

/// With the default choices, the two admitted children of a listing are
/// those whose names are not hidden.
proof fn lemma_admitted_of_three(
    config: ConfigView,
    listing: Seq<ChildView>,
    a: ChildView,
    b: ChildView,
    hidden: ChildView,
    ia: int,
    ib: int,
    ih: int,
)
    requires
        default_choices(config),
        listing.len() == 3,
        0 <= ia < 3 && 0 <= ib < 3 && 0 <= ih < 3,
        ia != ib && ia != ih && ib != ih,
        listing[ia] == a && listing[ib] == b && listing[ih] == hidden,
        !is_dot_name(listed_name(a.path)),
        !is_dot_name(listed_name(b.path)),
        is_dot_name(listed_name(hidden.path)),
    ensures
        admitted(config, listing) == (if ia < ib {
            seq![a, b]
        } else {
            seq![b, a]
        }),
{
    reveal_with_fuel(admitted, 4);
    let two = listing.drop_last();
    let one = two.drop_last();
    assert(one.drop_last() =~= Seq::<ChildView>::empty());
    assert(two.last() == listing[1]);
    assert(one.last() == listing[0]);
    assert(admits(config, a));
    assert(admits(config, b));
    assert(!admits(config, hidden));
    assert(admitted(config, one.drop_last()) =~= Seq::<ChildView>::empty());
    assert(admitted(config, listing) =~= (if ia < ib {
        seq![a, b]
    } else {
        seq![b, a]
    }));
}

/// One more answer takes the traversal one step further.
pub proof fn lemma_run_push(w: WalkView, events: Seq<WalkEvent>, event: WalkEvent)
    ensures
        run(w, events.push(event)) == step(run(w, events), event),
{
    assert(events.push(event).drop_last() =~= events);
}

/// A root directory with two admitted children that are not entered: the
/// traversal ends when both are probed.
pub proof fn lemma_run_two_leaves(
    w: WalkView,
    path: Seq<char>,
    root: Probe,
    listing: Vec<ChildPath>,
    first: ChildView,
    second: ChildView,
    probe_one: Probe,
    probe_two: Probe,
)
    requires
        w.stage == StageView::Probing(path),
        w.frames.len() == 0,
        expands(w.config, fresh_entry(path, root), w.base_depth),
        admitted(w.config, children_view(listing@)) == seq![first, second],
        !expands(w.config, fresh_entry(first.path, probe_one), w.base_depth + 1),
        !expands(w.config, fresh_entry(second.path, probe_two), w.base_depth + 1),
    ensures
        run(
            w,
            seq![
                WalkEvent::Probed(root),
                WalkEvent::Listed(listing),
                WalkEvent::Probed(probe_one),
                WalkEvent::Probed(probe_two),
            ],
        ) == with_both_children(
            w,
            fresh_entry(path, root),
            fresh_entry(first.path, probe_one),
            fresh_entry(second.path, probe_two),
        ),
{
    let tree = fresh_entry(path, root);
    let one = fresh_entry(first.path, probe_one);
    let two = fresh_entry(second.path, probe_two);
    let none = Seq::<WalkEvent>::empty();
    let e1 = none.push(WalkEvent::Probed(root));
    let e2 = e1.push(WalkEvent::Listed(listing));
    let e3 = e2.push(WalkEvent::Probed(probe_one));
    let e4 = e3.push(WalkEvent::Probed(probe_two));
    assert(e4 =~= seq![
        WalkEvent::Probed(root),
        WalkEvent::Listed(listing),
        WalkEvent::Probed(probe_one),
        WalkEvent::Probed(probe_two),
    ]);
    let at1 = at_first_child(w, tree, first, second);
    let at2 = at_second_child(w, tree, one, second);
    assert(run(w, e2) == at1) by {
        lemma_run_push(w, none, WalkEvent::Probed(root));
        lemma_run_push(w, e1, WalkEvent::Listed(listing));
        lemma_to_first_child(w, path, root, listing, first, second);
    }
    assert(run(w, e3) == at2) by {
        lemma_run_push(w, e2, WalkEvent::Probed(probe_one));
        lemma_first_child_settles(w, at1, tree, one, first, second);
    }
    assert(run(w, e4) == with_both_children(w, tree, one, two)) by {
        lemma_run_push(w, e3, WalkEvent::Probed(probe_two));
        lemma_second_child_settles(w, at2, tree, one, two, second);
    }
}

/// A root directory with two admitted children, the first a directory that
/// cannot be read and the second not entered.
pub proof fn lemma_run_failed_then_leaf(
    w: WalkView,
    path: Seq<char>,
    root: Probe,
    listing: Vec<ChildPath>,
    first: ChildView,
    second: ChildView,
    probe_one: Probe,
    reason: String,
    probe_two: Probe,
)
    requires
        w.stage == StageView::Probing(path),
        w.frames.len() == 0,
        expands(w.config, fresh_entry(path, root), w.base_depth),
        admitted(w.config, children_view(listing@)) == seq![first, second],
        expands(w.config, fresh_entry(first.path, probe_one), w.base_depth + 1),
        !expands(w.config, fresh_entry(second.path, probe_two), w.base_depth + 1),
    ensures
        run(
            w,
            seq![
                WalkEvent::Probed(root),
                WalkEvent::Listed(listing),
                WalkEvent::Probed(probe_one),
                WalkEvent::ListFailed(reason),
                WalkEvent::Probed(probe_two),
            ],
        ) == with_both_children(
            w,
            fresh_entry(path, root),
            EntryView { error: Some(open_error(reason@)), ..fresh_entry(first.path, probe_one) },
            fresh_entry(second.path, probe_two),
        ),
{
    let tree = fresh_entry(path, root);
    let probed = fresh_entry(first.path, probe_one);
    let one = EntryView { error: Some(open_error(reason@)), ..probed };
    let two = fresh_entry(second.path, probe_two);
    let none = Seq::<WalkEvent>::empty();
    let e1 = none.push(WalkEvent::Probed(root));
    let e2 = e1.push(WalkEvent::Listed(listing));
    let e3 = e2.push(WalkEvent::Probed(probe_one));
    let e4 = e3.push(WalkEvent::ListFailed(reason));
    let e5 = e4.push(WalkEvent::Probed(probe_two));
    assert(e5 =~= seq![
        WalkEvent::Probed(root),
        WalkEvent::Listed(listing),
        WalkEvent::Probed(probe_one),
        WalkEvent::ListFailed(reason),
        WalkEvent::Probed(probe_two),
    ]);
    let at1 = at_first_child(w, tree, first, second);
    let asked = WalkView { stage: StageView::Listing(probed), ..at1 };
    let at2 = at_second_child(w, tree, one, second);
    assert(run(w, e2) == at1) by {
        lemma_run_push(w, none, WalkEvent::Probed(root));
        lemma_run_push(w, e1, WalkEvent::Listed(listing));
        lemma_to_first_child(w, path, root, listing, first, second);
    }
    assert(run(w, e3) == asked) by {
        lemma_run_push(w, e2, WalkEvent::Probed(probe_one));
    }
    assert(run(w, e4) == at2) by {
        lemma_run_push(w, e3, WalkEvent::ListFailed(reason));
        lemma_first_child_settles(w, asked, tree, one, first, second);
    }
    assert(run(w, e5) == with_both_children(w, tree, one, two)) by {
        lemma_run_push(w, e4, WalkEvent::Probed(probe_two));
        lemma_second_child_settles(w, at2, tree, one, two, second);
    }
}

/// A root directory with two admitted children, the first not entered and
/// the second a directory that cannot be read.
pub proof fn lemma_run_leaf_then_failed(
    w: WalkView,
    path: Seq<char>,
    root: Probe,
    listing: Vec<ChildPath>,
    first: ChildView,
    second: ChildView,
    probe_one: Probe,
    probe_two: Probe,
    reason: String,
)
    requires
        w.stage == StageView::Probing(path),
        w.frames.len() == 0,
        expands(w.config, fresh_entry(path, root), w.base_depth),
        admitted(w.config, children_view(listing@)) == seq![first, second],
        !expands(w.config, fresh_entry(first.path, probe_one), w.base_depth + 1),
        expands(w.config, fresh_entry(second.path, probe_two), w.base_depth + 1),
    ensures
        run(
            w,
            seq![
                WalkEvent::Probed(root),
                WalkEvent::Listed(listing),
                WalkEvent::Probed(probe_one),
                WalkEvent::Probed(probe_two),
                WalkEvent::ListFailed(reason),
            ],
        ) == with_both_children(
            w,
            fresh_entry(path, root),
            fresh_entry(first.path, probe_one),
            EntryView { error: Some(open_error(reason@)), ..fresh_entry(second.path, probe_two) },
        ),
{
    let tree = fresh_entry(path, root);
    let one = fresh_entry(first.path, probe_one);
    let probed = fresh_entry(second.path, probe_two);
    let two = EntryView { error: Some(open_error(reason@)), ..probed };
    let none = Seq::<WalkEvent>::empty();
    let e1 = none.push(WalkEvent::Probed(root));
    let e2 = e1.push(WalkEvent::Listed(listing));
    let e3 = e2.push(WalkEvent::Probed(probe_one));
    let e4 = e3.push(WalkEvent::Probed(probe_two));
    let e5 = e4.push(WalkEvent::ListFailed(reason));
    assert(e5 =~= seq![
        WalkEvent::Probed(root),
        WalkEvent::Listed(listing),
        WalkEvent::Probed(probe_one),
        WalkEvent::Probed(probe_two),
        WalkEvent::ListFailed(reason),
    ]);
    let at1 = at_first_child(w, tree, first, second);
    let at2 = at_second_child(w, tree, one, second);
    let asked = WalkView { stage: StageView::Listing(probed), ..at2 };
    assert(run(w, e2) == at1) by {
        lemma_run_push(w, none, WalkEvent::Probed(root));
        lemma_run_push(w, e1, WalkEvent::Listed(listing));
        lemma_to_first_child(w, path, root, listing, first, second);
    }
    assert(run(w, e3) == at2) by {
        lemma_run_push(w, e2, WalkEvent::Probed(probe_one));
        lemma_first_child_settles(w, at1, tree, one, first, second);
    }
    assert(run(w, e4) == asked) by {
        lemma_run_push(w, e3, WalkEvent::Probed(probe_two));
    }
    assert(run(w, e5) == with_both_children(w, tree, one, two)) by {
        lemma_run_push(w, e4, WalkEvent::ListFailed(reason));
        lemma_second_child_settles(w, asked, tree, one, two, second);
    }
}

/// The names of the scenario stand in the order of strings as the letters
/// say.
proof fn lemma_scenario_names()
    ensures
        lex_lt("a.txt"@, "b.txt"@),
        !lex_lt("b.txt"@, "a.txt"@),
        lex_lt("bad"@, "z.txt"@),
        !lex_lt("z.txt"@, "bad"@),
        !is_dot_name("a.txt"@),
        !is_dot_name("b.txt"@),
        !is_dot_name("bad"@),
        !is_dot_name("z.txt"@),
        is_dot_name(".cfg"@),
{
    reveal_strlit("a.txt");
    reveal_strlit("b.txt");
    reveal_strlit(".cfg");
    reveal_strlit("bad");
    reveal_strlit("z.txt");
}

/// A directory that holds the files `a.txt` and `b.txt` and the hidden
/// `.cfg`, listed in any order and walked with the default choices, gives a
/// tree with `a.txt` before `b.txt` and without `.cfg`; two files are
/// counted and no directory. The names of the paths and their lower-case
/// forms are those that the file system and the letters give.
pub proof fn lemma_visible_files_by_name(
    path: Seq<char>,
    config: ConfigView,
    stats: TreeStats,
    root: Probe,
    listing: Vec<ChildPath>,
    a: ChildView,
    b: ChildView,
    hidden: ChildView,
    ia: int,
    ib: int,
    ih: int,
    probe_a: Probe,
    probe_b: Probe,
)
    requires
        default_choices(config),
        plain_directory(root),
        listing@.len() == 3,
        0 <= ia < 3 && 0 <= ib < 3 && 0 <= ih < 3,
        ia != ib && ia != ih && ib != ih,
        listing@[ia]@ == a && listing@[ib]@ == b && listing@[ih]@ == hidden,
        path_file_name(a.path) == Some("a.txt"@),
        path_file_name(b.path) == Some("b.txt"@),
        path_file_name(hidden.path) == Some(".cfg"@),
        lowercase("a.txt"@) == "a.txt"@,
        lowercase("b.txt"@) == "b.txt"@,
        no_directory(probe_a),
        no_directory(probe_b),
    ensures
        ({
            let first = if ia < ib { probe_a } else { probe_b };
            let second = if ia < ib { probe_b } else { probe_a };
            let end = run(
                begun(path, config, stats, 0),
                seq![
                    WalkEvent::Probed(root),
                    WalkEvent::Listed(listing),
                    WalkEvent::Probed(first),
                    WalkEvent::Probed(second),
                ],
            );
            &&& end.stage is Finished
            &&& end.stage->Finished_0 == (EntryView {
                children: seq![fresh_entry(a.path, probe_a), fresh_entry(b.path, probe_b)],
                ..fresh_entry(path, root)
            })
            &&& end.stage->Finished_0.error is None
            &&& end.stage->Finished_0.children[0].name == "a.txt"@
            &&& end.stage->Finished_0.children[1].name == "b.txt"@
            &&& end.directories == stats.directories
            &&& end.files == stats.files + 2
        }),
{
    lemma_scenario_names();
    let w = begun(path, config, stats, 0);
    let views = children_view(listing@);
    assert(views.len() == 3);
    assert(views[ia] == a && views[ib] == b && views[ih] == hidden);
    lemma_admitted_of_three(config, views, a, b, hidden, ia, ib, ih);
    let entry_a = fresh_entry(a.path, probe_a);
    let entry_b = fresh_entry(b.path, probe_b);
    assert(sorter_of(config).in_order(entry_a, entry_b));
    assert(!sorter_of(config).in_order(entry_b, entry_a));
    if ia < ib {
        lemma_run_two_leaves(w, path, root, listing, a, b, probe_a, probe_b);
        lemma_ordered_pair(sorter_of(config), entry_a, entry_b);
    } else {
        lemma_run_two_leaves(w, path, root, listing, b, a, probe_b, probe_a);
        lemma_ordered_pair(sorter_of(config), entry_b, entry_a);
    }
}

/// Whether the traversal is over with this tree and these counts.
pub open spec fn ends_with(end: WalkView, tree: EntryView, directories: int, files: int) -> bool {
    &&& end.stage == StageView::Finished(tree)
    &&& end.directories == directories
    &&& end.files == files
}

/// The tree of a directory that holds the unreadable directory `bad` and
/// the file `z.txt`.
pub open spec fn unreadable_and_sibling(
    path: Seq<char>,
    root: Probe,
    bad: ChildView,
    probe_bad: Probe,
    reason: Seq<char>,
    file: ChildView,
    probe_file: Probe,
) -> EntryView {
    EntryView {
        children: seq![
            EntryView { error: Some(open_error(reason)), ..fresh_entry(bad.path, probe_bad) },
            fresh_entry(file.path, probe_file),
        ],
        ..fresh_entry(path, root)
    }
}

/// A directory that holds the directory `bad`, which cannot be read, and
/// the file `z.txt`, listed in either order and walked with the default
/// choices, gives a tree with `bad` before `z.txt`: `bad` carries the error
/// and has no children, and the walk goes on to `z.txt` all the same. One
/// directory and one file are counted.
pub proof fn lemma_unreadable_directory_and_sibling(
    path: Seq<char>,
    config: ConfigView,
    stats: TreeStats,
    root: Probe,
    listing: Vec<ChildPath>,
    bad: ChildView,
    file: ChildView,
    bad_first: bool,
    probe_bad: Probe,
    reason: String,
    probe_file: Probe,
)
    requires
        default_choices(config),
        plain_directory(root),
        listing@.len() == 2,
        listing@[0]@ == (if bad_first { bad } else { file }),
        listing@[1]@ == (if bad_first { file } else { bad }),
        path_file_name(bad.path) == Some("bad"@),
        path_file_name(file.path) == Some("z.txt"@),
        lowercase("bad"@) == "bad"@,
        lowercase("z.txt"@) == "z.txt"@,
        plain_directory(probe_bad),
        no_directory(probe_file),
    ensures
        bad_first ==> ends_with(
            run(
                begun(path, config, stats, 0),
                seq![
                    WalkEvent::Probed(root),
                    WalkEvent::Listed(listing),
                    WalkEvent::Probed(probe_bad),
                    WalkEvent::ListFailed(reason),
                    WalkEvent::Probed(probe_file),
                ],
            ),
            unreadable_and_sibling(path, root, bad, probe_bad, reason@, file, probe_file),
            stats.directories + 1,
            stats.files + 1,
        ),
        !bad_first ==> ends_with(
            run(
                begun(path, config, stats, 0),
                seq![
                    WalkEvent::Probed(root),
                    WalkEvent::Listed(listing),
                    WalkEvent::Probed(probe_file),
                    WalkEvent::Probed(probe_bad),
                    WalkEvent::ListFailed(reason),
                ],
            ),
            unreadable_and_sibling(path, root, bad, probe_bad, reason@, file, probe_file),
            stats.directories + 1,
            stats.files + 1,
        ),
        ({
            let tree = unreadable_and_sibling(path, root, bad, probe_bad, reason@, file, probe_file);
            &&& tree.error is None
            &&& tree.children[0].name == "bad"@
            &&& tree.children[0].error == Some(open_error(reason@))
            &&& tree.children[0].children.len() == 0
            &&& tree.children[1].name == "z.txt"@
            &&& tree.children[1].error is None
        }),
{
    lemma_scenario_names();
    let w = begun(path, config, stats, 0);
    let views = children_view(listing@);
    assert(views.len() == 2);
    let first_child = if bad_first { bad } else { file };
    let second_child = if bad_first { file } else { bad };
    assert(views[0] == first_child && views[1] == second_child);
    assert(admitted(config, views) =~= seq![first_child, second_child]) by {
        reveal_with_fuel(admitted, 3);
        let one = views.drop_last();
        assert(one.drop_last() =~= Seq::<ChildView>::empty());
        assert(one.last() == views[0]);
        assert(admits(config, bad));
        assert(admits(config, file));
        assert(admitted(config, one.drop_last()) =~= Seq::<ChildView>::empty());
    }
    let entry_bad = EntryView { error: Some(open_error(reason@)), ..fresh_entry(bad.path, probe_bad) };
    let entry_file = fresh_entry(file.path, probe_file);
    assert(sorter_of(config).in_order(entry_bad, entry_file));
    assert(!sorter_of(config).in_order(entry_file, entry_bad));
    let tree = fresh_entry(path, root);
    let wanted = unreadable_and_sibling(path, root, bad, probe_bad, reason@, file, probe_file);
    assert(wanted.children =~= seq![entry_bad, entry_file]);
    assert(wanted == (EntryView { children: seq![entry_bad, entry_file], ..tree }));
    if bad_first {
        lemma_run_failed_then_leaf(w, path, root, listing, bad, file, probe_bad, reason, probe_file);
        lemma_ordered_pair(sorter_of(config), entry_bad, entry_file);
        let end = with_both_children(w, tree, entry_bad, entry_file);
        assert(end.stage == StageView::Finished(wanted));
    } else {
        lemma_run_leaf_then_failed(w, path, root, listing, file, bad, probe_file, probe_bad, reason);
        lemma_ordered_pair(sorter_of(config), entry_file, entry_bad);
        let end = with_both_children(w, tree, entry_file, entry_bad);
        assert(end.stage == StageView::Finished(wanted));
    }
}

} // verus!
