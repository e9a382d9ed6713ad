//! From a walk of the store to its tree: which entries are shown, under which
//! names, and how their depths nest them.

use vstd::prelude::*;
use crate::error::ShowError;
use crate::names::{
    display_path, file_name, file_name_of, has_base_name, hidden_name, is_hidden, stem_of,
};
use crate::tree::{
    forest_view, lemma_sorted_names, listing, names_in, sorted_tree, Tree, TreeNode,
};

verus! {

/// One entry of a walk, as a mathematical value.
pub struct Entry {
    pub path: Option<Seq<char>>,
    pub depth: nat,
    pub is_dir: bool,
}

/// One shown entry, as a mathematical value.
pub struct Row {
    pub name: Seq<char>,
    pub depth: nat,
    pub is_dir: bool,
}

/// One entry that a walk of the store yields. The walk lists a directory
/// before what it holds; its root has depth 0. An entry whose name is not
/// text has no path here.
#[derive(Debug, Clone, PartialEq, Eq)]
pub struct DirectoryEntry {
    pub path: Option<String>,
    pub depth: usize,
    pub is_dir: bool,
}

/// An entry that is shown, under the name that it is shown by.
#[derive(Debug, Clone, PartialEq, Eq)]
pub struct ShownEntry {
    pub name: String,
    pub depth: usize,
    pub is_dir: bool,
}

impl View for DirectoryEntry {
    type V = Entry;

    open spec fn view(&self) -> Entry {
        Entry {
            path: match self.path {
                Some(path) => Some(path@),
                None => None,
            },
            depth: self.depth as nat,
            is_dir: self.is_dir,
        }
    }
}

impl View for ShownEntry {
    type V = Row;

    open spec fn view(&self) -> Row {
        Row { name: self.name@, depth: self.depth as nat, is_dir: self.is_dir }
    }
}

/// What a walk yields, as mathematical values: its entries, and nothing in
/// the place of each entry that could not be read.
pub open spec fn walk_view(walk: Seq<Option<DirectoryEntry>>) -> Seq<Option<Entry>> {
    walk.map_values(
        |item: Option<DirectoryEntry>|
            match item {
                Some(e) => Some(e@),
                None => None,
            },
    )
}

/// The shown entries as mathematical values.
pub open spec fn rows_view(rows: Seq<ShownEntry>) -> Seq<Row> {
    rows.map_values(|r: ShownEntry| r@)
}

/// An entry is hidden when the last component of its path begins with a dot.
/// One whose name is not text is not hidden.
pub open spec fn hidden_entry(e: Entry) -> bool {
    e.path is Some && hidden_name(file_name_of(e.path->0))
}

/// The entry can be shown by a name: its name is text and has a base name.
pub open spec fn named_entry(e: Entry) -> bool {
    e.path is Some && has_base_name(file_name_of(e.path->0))
}

/// The entries of `walk` from place `i` on that are shown. What could not be
/// read is passed over. A hidden entry is left out together with the deeper
/// entries that follow it directly (what lies below it); `cut` is the depth
/// of the hidden entry whose run is being left out. The root of the walk, at
/// depth 0, is never shown, and its own name hides nothing: a store in a
/// hidden directory shows what it holds.
pub open spec fn shown_from(walk: Seq<Option<Entry>>, i: int, cut: Option<nat>) -> Seq<Entry>
    decreases walk.len() - i,
{
    if i < 0 || i >= walk.len() {
        Seq::empty()
    } else if walk[i] is None {
        shown_from(walk, i + 1, cut)
    } else if walk[i]->0.depth == 0 {
        shown_from(walk, i + 1, None)
    } else if cut is Some && walk[i]->0.depth > cut->0 {
        shown_from(walk, i + 1, cut)
    } else if hidden_entry(walk[i]->0) {
        shown_from(walk, i + 1, Some(walk[i]->0.depth))
    } else {
        seq![walk[i]->0] + shown_from(walk, i + 1, None)
    }
}

/// The entries of `walk` that are shown, in the order of the walk.
pub open spec fn shown_entries(walk: Seq<Option<Entry>>) -> Seq<Entry> {
    shown_from(walk, 0, None)
}

/// Every entry can be shown by a name.
pub open spec fn all_named(entries: Seq<Entry>) -> bool {
    forall|i: int| 0 <= i < entries.len() ==> named_entry(#[trigger] entries[i])
}

/// The entry as it is shown: by the stem of its file name.
pub open spec fn row_of(e: Entry) -> Row {
    Row {
        name: match e.path {
            Some(path) => stem_of(file_name_of(path)),
            None => Seq::empty(),
        },
        depth: e.depth,
        is_dir: e.is_dir,
    }
}

/// The shown entries of `walk`, each under its shown name.
pub open spec fn rows_of(walk: Seq<Option<Entry>>) -> Seq<Row> {
    shown_entries(walk).map_values(|e: Entry| row_of(e))
}

/// How many rows from place `i` on, without a gap, are at depth `d` or deeper.
pub open spec fn run_len(rows: Seq<Row>, i: int, d: nat) -> nat
    decreases rows.len() - i,
{
    if 0 <= i < rows.len() && rows[i].depth >= d {
        1 + run_len(rows, i + 1, d)
    } else {
        0
    }
}

/// Where the rows below the row at `lo` end, within `lo..hi`: behind the run
/// of deeper rows that follows it.
pub open spec fn below_end(rows: Seq<Row>, lo: int, hi: int) -> int {
    let end = lo + 1 + run_len(rows, lo + 1, rows[lo].depth + 1);
    if end < hi {
        end
    } else {
        hi
    }
}

/// The trees that the rows `lo..hi` stand for. The first row is a node. Where
/// it is a directory, the deeper rows that follow it directly are below it,
/// and the next node of this level begins behind them; where it is a file,
/// the next node begins with the next row.
pub open spec fn forest_of(rows: Seq<Row>, lo: int, hi: int) -> Seq<Tree>
    decreases hi - lo,
{
    if lo < 0 || lo >= hi || hi > rows.len() {
        Seq::empty()
    } else if rows[lo].is_dir {
        let end = below_end(rows, lo, hi);
        seq![Tree { name: rows[lo].name, children: forest_of(rows, lo + 1, end) }] + forest_of(
            rows,
            end,
            hi,
        )
    } else {
        seq![Tree { name: rows[lo].name, children: Seq::empty() }] + forest_of(rows, lo + 1, hi)
    }
}

/// The names of the rows `lo..hi`, in their order.
pub open spec fn row_names(rows: Seq<Row>, lo: int, hi: int) -> Seq<Seq<char>> {
    Seq::new((hi - lo) as nat, |k: int| rows[lo + k].name)
}

/// The trees built from rows hold each row's name once, in the order of the
/// rows: no row is lost, none is added, none is moved.
pub proof fn lemma_forest_names(rows: Seq<Row>, lo: int, hi: int)
    requires
        0 <= lo <= hi <= rows.len(),
    ensures
        names_in(forest_of(rows, lo, hi)) == row_names(rows, lo, hi),
    decreases hi - lo,
{
    let want = row_names(rows, lo, hi);
    if lo < hi {
        let f = forest_of(rows, lo, hi);
        if rows[lo].is_dir {
            let end = below_end(rows, lo, hi);
            lemma_forest_names(rows, lo + 1, end);
            lemma_forest_names(rows, end, hi);
            assert(f.drop_first() =~= forest_of(rows, end, hi));
            assert(f[0].children == forest_of(rows, lo + 1, end));
            assert(names_in(f) == seq![rows[lo].name] + row_names(rows, lo + 1, end) + row_names(
                rows,
                end,
                hi,
            ));
            assert(names_in(f) =~= want);
        } else {
            lemma_forest_names(rows, lo + 1, hi);
            assert(f.drop_first() =~= forest_of(rows, lo + 1, hi));
            assert(f[0].children =~= Seq::<Tree>::empty());
            assert(names_in(f) == seq![rows[lo].name] + names_in(Seq::<Tree>::empty()) + row_names(
                rows,
                lo + 1,
                hi,
            ));
            assert(names_in(f) =~= want);
        }
    } else {
        assert(names_in(forest_of(rows, lo, hi)) =~= want);
    }
}

/// The row at `i` is at most one level below the row before it where that
/// is a directory, and not below it where that is a file.
pub open spec fn nested_at(rows: Seq<Row>, i: int) -> bool {
    rows[i].depth <= rows[i - 1].depth + if rows[i - 1].is_dir {
        1nat
    } else {
        0nat
    }
}

/// The rows are nested as a walk lists them: the first is at depth `first`,
/// none is shallower, and each is nested behind the row before it.
pub open spec fn well_nested(rows: Seq<Row>, first: nat) -> bool {
    &&& rows.len() > 0 ==> rows[0].depth == first
    &&& forall|i: int| 0 <= i < rows.len() ==> (#[trigger] rows[i]).depth >= first
    &&& forall|i: int| 0 < i < rows.len() ==> #[trigger] nested_at(rows, i)
}

/// The rows `lo..hi`, each as its depth and its name.
pub open spec fn row_listing(rows: Seq<Row>, lo: int, hi: int) -> Seq<(nat, Seq<char>)> {
    Seq::new((hi - lo) as nat, |k: int| (rows[lo + k].depth, rows[lo + k].name))
}

/// A run holds rows at depth `d` or deeper, and ends at the end of the rows
/// or before a shallower row.
pub proof fn lemma_run(rows: Seq<Row>, i: int, d: nat)
    requires
        0 <= i,
    ensures
        i + run_len(rows, i, d) <= rows.len() || run_len(rows, i, d) == 0,
        forall|k: int| i <= k < i + run_len(rows, i, d) ==> (#[trigger] rows[k]).depth >= d,
        i + run_len(rows, i, d) < rows.len() ==> rows[i + run_len(rows, i, d)].depth < d,
    decreases rows.len() - i,
{
    if i < rows.len() && rows[i].depth >= d {
        lemma_run(rows, i + 1, d);
    }
}

/// Among rows nested as a walk lists them, the trees keep every depth: a node
/// is as deep in the tree as its row is in the walk.
pub proof fn lemma_forest_depths(rows: Seq<Row>, lo: int, hi: int, d: nat)
    requires
        0 <= lo <= hi <= rows.len(),
        forall|i: int| 0 < i < rows.len() ==> #[trigger] nested_at(rows, i),
        forall|k: int| lo <= k < hi ==> (#[trigger] rows[k]).depth >= d,
        lo < hi ==> rows[lo].depth == d,
    ensures
        listing(forest_of(rows, lo, hi), d) == row_listing(rows, lo, hi),
    decreases hi - lo,
{
    let want = row_listing(rows, lo, hi);
    let f = forest_of(rows, lo, hi);
    if lo < hi {
        if rows[lo].is_dir {
            let end = below_end(rows, lo, hi);
            lemma_run(rows, lo + 1, d + 1);
            if lo + 1 < end {
                assert(rows[lo + 1].depth >= d + 1);
                assert(nested_at(rows, lo + 1));
            }
            if end < hi {
                assert(rows[end].depth >= d);
            }
            lemma_forest_depths(rows, lo + 1, end, d + 1);
            lemma_forest_depths(rows, end, hi, d);
            assert(f.drop_first() =~= forest_of(rows, end, hi));
            assert(f[0].children == forest_of(rows, lo + 1, end));
            assert(listing(f, d) == seq![(d, rows[lo].name)] + row_listing(rows, lo + 1, end)
                + row_listing(rows, end, hi));
            assert(listing(f, d) =~= want);
        } else {
            if lo + 1 < hi {
                assert(rows[lo + 1].depth >= d);
                assert(nested_at(rows, lo + 1));
            }
            lemma_forest_depths(rows, lo + 1, hi, d);
            assert(f.drop_first() =~= forest_of(rows, lo + 1, hi));
            assert(f[0].children =~= Seq::<Tree>::empty());
            assert(listing(f, d) == seq![(d, rows[lo].name)] + listing(Seq::<Tree>::empty(), d + 1)
                + row_listing(rows, lo + 1, hi));
            assert(listing(f, d) =~= want);
        }
    } else {
        assert(listing(f, d) =~= want);
    }
}

/// The tree of rows that are nested as a walk lists them, the first at depth
/// 1 below the root, holds each row at its depth, in the order of the rows.
/// So the children of a directory are the rows one level below it that
/// follow it before the walk leaves it.
pub proof fn lemma_tree_keeps_depths(rows: Seq<Row>)
    requires
        well_nested(rows, 1),
    ensures
        listing(forest_of(rows, 0, rows.len() as int), 1) == row_listing(
            rows,
            0,
            rows.len() as int,
        ),
{
    lemma_forest_depths(rows, 0, rows.len() as int, 1);
}

/// The hidden entry at `j`, below the root of the walk, hides what follows it
/// up to `i`: every entry between the two that was read is deeper than it.
pub open spec fn hides_until(walk: Seq<Option<Entry>>, j: int, i: int) -> bool {
    &&& 0 <= j < i <= walk.len()
    &&& walk[j] is Some
    &&& walk[j]->0.depth > 0
    &&& hidden_entry(walk[j]->0)
    &&& forall|k: int|
        j < k < i && (#[trigger] walk[k]) is Some ==> walk[k]->0.depth > walk[j]->0.depth
}

/// The entry at `i` is hidden, or lies below a hidden entry.
pub open spec fn under_hidden(walk: Seq<Option<Entry>>, i: int) -> bool {
    exists|j: int| #[trigger] hides_until(walk, j, i + 1)
}

/// The entry at `i` is shown: it was read, lies below the root of the walk,
/// and is neither hidden nor below a hidden entry.
pub open spec fn shown_at(walk: Seq<Option<Entry>>, i: int) -> bool {
    &&& 0 <= i < walk.len()
    &&& walk[i] is Some
    &&& walk[i]->0.depth > 0
    &&& !under_hidden(walk, i)
}

/// The entries from place `i` on that are shown, in the order of the walk.
pub open spec fn picked_from(walk: Seq<Option<Entry>>, i: int) -> Seq<Entry>
    decreases walk.len() - i,
{
    if i < 0 || i >= walk.len() {
        Seq::empty()
    } else if shown_at(walk, i) {
        seq![walk[i]->0] + picked_from(walk, i + 1)
    } else {
        picked_from(walk, i + 1)
    }
}

/// The cut at place `i` is the depth of the shallowest hidden entry that
/// hides what follows it up to `i`; there is no cut where there is no such
/// entry.
pub open spec fn cut_at(walk: Seq<Option<Entry>>, i: int, cut: Option<nat>) -> bool {
    match cut {
        Some(c) => {
            &&& exists|j: int| #[trigger] hides_until(walk, j, i) && walk[j]->0.depth == c
            &&& forall|j: int| #[trigger] hides_until(walk, j, i) ==> walk[j]->0.depth >= c
        },
        None => forall|j: int| !#[trigger] hides_until(walk, j, i),
    }
}

/// With the cut that belongs to place `i`, the entries left after the hidden
/// ones and what follows them deeper are those that are shown.
pub proof fn lemma_shown_is_picked(walk: Seq<Option<Entry>>, i: int, cut: Option<nat>)
    requires
        0 <= i,
        cut_at(walk, i, cut),
    ensures
        shown_from(walk, i, cut) == picked_from(walk, i),
    decreases walk.len() - i,
{
    if i < walk.len() {
        let next: Option<nat> = if walk[i] is None {
            cut
        } else if walk[i]->0.depth == 0 {
            None
        } else if cut is Some && walk[i]->0.depth > cut->0 {
            cut
        } else if hidden_entry(walk[i]->0) {
            Some(walk[i]->0.depth)
        } else {
            None
        };
        assert forall|j: int| #[trigger] hides_until(walk, j, i + 1) implies j == i || (hides_until(
            walk,
            j,
            i,
        ) && (walk[i] is Some ==> walk[i]->0.depth > walk[j]->0.depth)) by {
            if j < i {
                assert(walk[i] is Some ==> walk[i]->0.depth > walk[j]->0.depth);
                assert(hides_until(walk, j, i));
            }
        }
        if walk[i] is None {
            if cut is Some {
                let j = choose|j: int| #[trigger] hides_until(walk, j, i) && walk[j]->0.depth == cut->0;
                assert(hides_until(walk, j, i + 1));
            }
            assert(!shown_at(walk, i));
        } else if walk[i]->0.depth == 0 {
            assert(!shown_at(walk, i));
        } else if cut is Some && walk[i]->0.depth > cut->0 {
            let j = choose|j: int| #[trigger] hides_until(walk, j, i) && walk[j]->0.depth == cut->0;
            assert(hides_until(walk, j, i + 1));
            assert(!shown_at(walk, i));
        } else if hidden_entry(walk[i]->0) {
            assert(hides_until(walk, i, i + 1));
            assert(!shown_at(walk, i));
        } else {
            assert(!under_hidden(walk, i));
        }
        assert(cut_at(walk, i + 1, next));
        lemma_shown_is_picked(walk, i + 1, next);
    }
}

/// An entry of a walk is shown exactly when it was read, lies below the root,
/// and is neither hidden nor below a hidden entry: the shown entries are
/// those, in the order of the walk.
pub proof fn lemma_shown_entries(walk: Seq<Option<Entry>>)
    ensures
        shown_entries(walk) == picked_from(walk, 0),
{
    lemma_shown_is_picked(walk, 0, None);
}

/// The item at `i` of a walk was read, as the one before it, and lies below
/// the root, at most one level below the entry before it where that is a
/// directory, and not below it where that is a file.
pub open spec fn walk_step(walk: Seq<Option<Entry>>, i: int) -> bool {
    &&& walk[i] is Some
    &&& walk[i - 1] is Some
    &&& 1 <= walk[i]->0.depth <= walk[i - 1]->0.depth + if walk[i - 1]->0.is_dir {
        1nat
    } else {
        0nat
    }
}

/// A walk as a directory gives it where all of it could be read: the root
/// first, at depth 0, and every directory directly before what it holds.
pub open spec fn walk_nested(walk: Seq<Option<Entry>>) -> bool {
    &&& walk.len() > 0 ==> walk[0] is Some && walk[0]->0.depth == 0
    &&& forall|i: int| 0 < i < walk.len() ==> #[trigger] walk_step(walk, i)
}

/// The entry at `k` is at most one level below the entry before it where that
/// is a directory, and not below it where that is a file.
pub open spec fn entry_step(entries: Seq<Entry>, k: int) -> bool {
    entries[k].depth <= entries[k - 1].depth + if entries[k - 1].is_dir {
        1nat
    } else {
        0nat
    }
}

/// Leaving out what is hidden keeps the nesting of a walk: the shown entries
/// from place `i` on begin no deeper than `bound`, lie below the root, and
/// each is nested behind the one before it.
pub proof fn lemma_shown_nested(walk: Seq<Option<Entry>>, i: int, cut: Option<nat>, bound: nat)
    requires
        walk_nested(walk),
        1 <= i,
        cut is Some ==> cut->0 <= bound,
        cut is None && i < walk.len() ==> walk[i]->0.depth <= bound,
    ensures
        shown_from(walk, i, cut).len() > 0 ==> shown_from(walk, i, cut)[0].depth <= bound,
        forall|k: int|
            0 <= k < shown_from(walk, i, cut).len() ==> (#[trigger] shown_from(
                walk,
                i,
                cut,
            )[k]).depth >= 1,
        forall|k: int|
            0 < k < shown_from(walk, i, cut).len() ==> #[trigger] entry_step(
                shown_from(walk, i, cut),
                k,
            ),
    decreases walk.len() - i,
{
    if i < walk.len() {
        assert(walk_step(walk, i));
        let e = walk[i]->0;
        let all = shown_from(walk, i, cut);
        if cut is Some && e.depth > cut->0 {
            lemma_shown_nested(walk, i + 1, cut, bound);
        } else if hidden_entry(e) {
            lemma_shown_nested(walk, i + 1, Some(e.depth), bound);
        } else {
            let below = e.depth + if e.is_dir {
                1nat
            } else {
                0nat
            };
            if i + 1 < walk.len() {
                assert(walk_step(walk, i + 1));
            }
            lemma_shown_nested(walk, i + 1, None, below);
            let rest = shown_from(walk, i + 1, None);
            assert(all =~= seq![e] + rest);
            assert forall|k: int| 0 <= k < all.len() implies (#[trigger] all[k]).depth >= 1 by {
                if k > 0 {
                    assert(all[k] == rest[k - 1]);
                }
            }
            assert forall|k: int| 0 < k < all.len() implies #[trigger] entry_step(all, k) by {
                if k == 1 {
                    assert(all[1] == rest[0] && all[0] == e);
                } else {
                    assert(all[k] == rest[k - 1] && all[k - 1] == rest[k - 2]);
                    assert(entry_step(rest, k - 1));
                }
            }
        }
    }
}

/// In the tree of a walk that a directory gives, every shown entry is as deep
/// as it is in the walk: the children of a directory are the shown entries
/// one level below it that the walk lists before it leaves the directory.
pub proof fn lemma_walk_keeps_depths(title: Seq<char>, walk: Seq<Option<Entry>>)
    requires
        walk_nested(walk),
    ensures
        listing(walked_tree(title, walk).children, 1) == row_listing(
            rows_of(walk),
            0,
            rows_of(walk).len() as int,
        ),
{
    let rows = rows_of(walk);
    let shown = shown_entries(walk);
    if walk.len() > 0 {
        let cut: Option<nat> = None;
        assert(shown == shown_from(walk, 1, cut));
        if 1 < walk.len() {
            assert(walk_step(walk, 1));
        }
        lemma_shown_nested(walk, 1, cut, 1);
        assert forall|k: int| 0 < k < rows.len() implies #[trigger] nested_at(rows, k) by {
            assert(entry_step(shown, k));
        }
        assert forall|k: int| 0 <= k < rows.len() implies (#[trigger] rows[k]).depth >= 1 by {
            assert(shown[k].depth >= 1);
        }
    }
    assert(well_nested(rows, 1));
    lemma_tree_keeps_depths(rows);
}

/// No shown entry is hidden, none is the root of the walk, and each is an
/// entry of the walk.
pub proof fn lemma_shown_from(walk: Seq<Option<Entry>>, i: int, cut: Option<nat>)
    requires
        0 <= i,
    ensures
        forall|k: int|
            0 <= k < shown_from(walk, i, cut).len() ==> {
                let e = #[trigger] shown_from(walk, i, cut)[k];
                &&& !hidden_entry(e)
                &&& e.depth > 0
                &&& exists|j: int| i <= j < walk.len() && walk[j] == Some(e)
            },
    decreases walk.len() - i,
{
    if i < walk.len() {
        let next_cut = if walk[i] is None {
            cut
        } else if walk[i]->0.depth == 0 {
            None
        } else if cut is Some && walk[i]->0.depth > cut->0 {
            cut
        } else if hidden_entry(walk[i]->0) {
            Some(walk[i]->0.depth)
        } else {
            None
        };
        lemma_shown_from(walk, i + 1, next_cut);
        let rest = shown_from(walk, i + 1, next_cut);
        let all = shown_from(walk, i, cut);
        assert forall|k: int| 0 <= k < all.len() implies {
            let e = #[trigger] all[k];
            &&& !hidden_entry(e)
            &&& e.depth > 0
            &&& exists|j: int| i <= j < walk.len() && walk[j] == Some(e)
        } by {
            if all.len() == rest.len() {
                assert(all == rest);
                let j = choose|j: int| i + 1 <= j < walk.len() && walk[j] == Some(rest[k]);
                assert(i <= j < walk.len() && walk[j] == Some(all[k]));
            } else if k == 0 {
                assert(walk[i] == Some(all[0]));
            } else {
                assert(all[k] == rest[k - 1]);
                let j = choose|j: int| i + 1 <= j < walk.len() && walk[j] == Some(rest[k - 1]);
                assert(i <= j < walk.len() && walk[j] == Some(all[k]));
            }
        }
    }
}


/// Browsing shows the shown entries of the walk and nothing else: those that
/// were read, lie below the root and are neither hidden nor below a hidden
/// entry. Each is an entry of the walk. The tree names each of them once: in
/// the order of the walk before its levels are put in order, and the same
/// names as often afterwards.
pub proof fn lemma_browse_shows_what_is_shown(title: Seq<char>, walk: Seq<Option<Entry>>)
    ensures
        shown_entries(walk) == picked_from(walk, 0),
        forall|k: int|
            0 <= k < shown_entries(walk).len() ==> {
                let e = #[trigger] shown_entries(walk)[k];
                &&& !hidden_entry(e)
                &&& e.depth > 0
                &&& exists|j: int| 0 <= j < walk.len() && walk[j] == Some(e)
            },
        rows_of(walk).len() == shown_entries(walk).len(),
        forall|k: int|
            0 <= k < shown_entries(walk).len() ==> #[trigger] rows_of(walk)[k] == row_of(
                shown_entries(walk)[k],
            ),
        names_in(walked_tree(title, walk).children) == row_names(
            rows_of(walk),
            0,
            rows_of(walk).len() as int,
        ),
        names_in(store_tree(title, walk).children).to_multiset() == row_names(
            rows_of(walk),
            0,
            rows_of(walk).len() as int,
        ).to_multiset(),
{
    lemma_shown_entries(walk);
    lemma_shown_from(walk, 0, None);
    lemma_forest_names(rows_of(walk), 0, rows_of(walk).len() as int);
    lemma_sorted_names(walked_tree(title, walk).children);
}

/// The depth of a cut as a mathematical value.
pub open spec fn cut_view(cut: Option<usize>) -> Option<nat> {
    match cut {
        Some(c) => Some(c as nat),
        None => None,
    }
}

/// The title of the tree: the requested name, or the store's own title.
pub open spec fn title_of(input: Option<String>) -> Seq<char> {
    match input {
        Some(name) => name@,
        None => "Point Guard Password Store"@,
    }
}

/// The tree of a store, before its levels are put in order: the title above
/// the trees of the shown entries.
pub open spec fn walked_tree(title: Seq<char>, walk: Seq<Option<Entry>>) -> Tree {
    Tree { name: title, children: forest_of(rows_of(walk), 0, rows_of(walk).len() as int) }
}

/// The tree of a store as it is shown: every level in name order.
pub open spec fn store_tree(title: Seq<char>, walk: Seq<Option<Entry>>) -> Tree {
    sorted_tree(walked_tree(title, walk))
}

/// The entries of the walk that are shown, each under its shown name, in the
/// order of the walk. Fails where the name of a shown entry is not text or
/// has no base name.
pub fn shown_rows(walk: &Vec<Option<DirectoryEntry>>) -> (res: Result<Vec<ShownEntry>, ShowError>)
    ensures
        all_named(shown_entries(walk_view(walk@))) ==> res is Ok && rows_view(res->Ok_0@)
            == rows_of(walk_view(walk@)),
        !all_named(shown_entries(walk_view(walk@))) ==> res == Err::<Vec<ShownEntry>, ShowError>(
            ShowError::InvalidEntryName,
        ),
{
    let ghost w = walk_view(walk@);
    let ghost mut seen: Seq<Entry> = Seq::empty();
    let mut out: Vec<ShownEntry> = Vec::new();
    let mut cut: Option<usize> = None;
    let mut i: usize = 0;
    proof {
        assert(seen + shown_from(w, 0, None) =~= shown_entries(w));
        assert(rows_view(out@) =~= seen.map_values(|e: Entry| row_of(e)));
    }
    while i < walk.len()
        invariant
            i <= walk.len(),
            w == walk_view(walk@),
            shown_entries(w) == seen + shown_from(w, i as int, cut_view(cut)),
            all_named(seen),
            rows_view(out@) == seen.map_values(|e: Entry| row_of(e)),
        decreases walk.len() - i,
    {
        let entry: &DirectoryEntry = match &walk[i] {
            Some(entry) => entry,
            None => {
                assert(w[i as int] is None);
                i += 1;
                continue ;
            },
        };
        assert(w[i as int] == Some(entry@));
        let in_cut: bool = match cut {
            Some(c) => entry.depth > c,
            None => false,
        };
        let hidden: bool = match &entry.path {
            Some(path) => is_hidden(file_name(path.as_str())),
            None => false,
        };
        if entry.depth == 0 {
            cut = None;
        } else if in_cut {
        } else if hidden {
            cut = Some(entry.depth);
        } else {
            let ghost rest = shown_from(w, i + 1, None);
            assert(shown_entries(w) =~= seen.push(entry@) + rest);
            let shown: Result<String, ShowError> = match &entry.path {
                Some(path) => display_path(path.as_str()),
                None => Err(ShowError::InvalidEntryName),
            };
            match shown {
                Ok(name) => {
                    let row = ShownEntry { name, depth: entry.depth, is_dir: entry.is_dir };
                    assert(row@ == row_of(entry@));
                    let ghost rows_before = rows_view(out@);
                    out.push(row);
                    proof {
                        assert(rows_view(out@) =~= rows_before.push(row@));
                        assert(seen.push(entry@).map_values(|e: Entry| row_of(e))
                            =~= seen.map_values(|e: Entry| row_of(e)).push(row_of(entry@)));
                        seen = seen.push(entry@);
                    }
                    cut = None;
                },
                Err(_) => {
                    assert(shown_entries(w)[seen.len() as int] == entry@);
                    return Err(ShowError::InvalidEntryName);
                },
            }
        }
        i += 1;
    }
    proof {
        assert(shown_entries(w) =~= seen);
    }
    Ok(out)
}

/// The trees that the rows `lo..hi` stand for; none where these are no rows.
pub fn build_forest(rows: &Vec<ShownEntry>, lo: usize, hi: usize) -> (out: Vec<TreeNode>)
    ensures
        forest_view(out@) == forest_of(rows_view(rows@), lo as int, hi as int),
    decreases hi - lo,
{
    let ghost r = rows_view(rows@);
    let mut out: Vec<TreeNode> = Vec::new();
    if lo > hi || hi > rows.len() {
        return out;
    }
    let mut i: usize = lo;
    proof {
        assert(forest_view(out@) + forest_of(r, lo as int, hi as int) =~= forest_of(
            r,
            lo as int,
            hi as int,
        ));
    }
    while i < hi
        invariant
            lo <= i <= hi <= rows.len(),
            r == rows_view(rows@),
            forest_view(out@) + forest_of(r, i as int, hi as int) == forest_of(
                r,
                lo as int,
                hi as int,
            ),
        decreases hi - i,
    {
        let row: &ShownEntry = &rows[i];
        assert(r[i as int] == row@);
        let ghost before = forest_view(out@);
        let ghost nodes_before = out@;
        let next: usize;
        let node: TreeNode;
        if row.is_dir {
            let mut j: usize = i + 1;
            while j < hi && rows[j].depth > row.depth
                invariant
                    i < j <= hi <= rows.len(),
                    r == rows_view(rows@),
                    r[i as int] == row@,
                    run_len(r, i + 1, row@.depth + 1) == (j - (i + 1)) + run_len(
                        r,
                        j as int,
                        row@.depth + 1,
                    ),
                decreases hi - j,
            {
                assert(r[j as int] == rows[j as int]@);
                j += 1;
            }
            proof {
                if j < hi {
                    assert(r[j as int] == rows[j as int]@);
                }
                assert(j == below_end(r, i as int, hi as int));
            }
            node = TreeNode { name: row.name.clone(), children: build_forest(rows, i + 1, j) };
            next = j;
        } else {
            node = TreeNode { name: row.name.clone(), children: Vec::new() };
            next = i + 1;
        }
        out.push(node);
        proof {
            assert(out@.drop_last() =~= nodes_before);
            assert(forest_view(out@) == before.push(node@));
            assert(forest_of(r, i as int, hi as int) =~= seq![node@] + forest_of(
                r,
                next as int,
                hi as int,
            ));
            assert(before.push(node@) + forest_of(r, next as int, hi as int) =~= before
                + forest_of(r, i as int, hi as int));
        }
        i = next;
    }
    proof {
        assert(forest_view(out@) + forest_of(r, hi as int, hi as int) =~= forest_view(out@));
    }
    out
}

/// The tree of a store from a walk of it: under the title, the shown entries
/// nested by their depths, every level in name order. Fails where the name
/// of a shown entry is not text or has no base name.
pub fn build_tree(walk: &Vec<Option<DirectoryEntry>>, input: Option<String>) -> (res: Result<
    TreeNode,
    ShowError,
>)
    ensures
        all_named(shown_entries(walk_view(walk@))) ==> res is Ok && res->Ok_0@ == store_tree(
            title_of(input),
            walk_view(walk@),
        ),
        !all_named(shown_entries(walk_view(walk@))) ==> res == Err::<TreeNode, ShowError>(
            ShowError::InvalidEntryName,
        ),
{
    let title: String = match input {
        Some(name) => name,
        None => String::from_str("Point Guard Password Store"),
    };
    match shown_rows(walk) {
        Ok(rows) => {
            let children: Vec<TreeNode> = build_forest(&rows, 0, rows.len());
            let mut root = TreeNode { name: title, children };
            root.sort();
            Ok(root)
        },
        Err(_) => Err(ShowError::InvalidEntryName),
    }
}

} // verus!
