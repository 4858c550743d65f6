//! Whole walks: what a walk reports when every listing comes from one tree.
//!
//! A directory tree is taken as the listings it gives: for each directory
//! path, the entries found there, or nothing when the directory cannot be
//! read. A walk that is started at the root, and given at each step the
//! tree's listing of the directory it asks for, ends with exactly the regular
//! files of the tree that lie within its depth limit and that it may see.

use crate::walk::admitted;
use crate::walk::descends;
use crate::walk::dir_filter;
use crate::walk::dir_in_bounds;
use crate::walk::file_filter;
use crate::walk::file_in_bounds;
use crate::walk::files_after;
use crate::walk::lemma_listing_is_complete;
use crate::walk::lemma_listing_stays_in_bounds;
use crate::walk::listed_dirs;
use crate::walk::listed_files;
use crate::walk::path_below;
use crate::walk::pending_after;
use crate::walk::DirEntryView;
use crate::walk::EntryKind;
use vstd::prelude::*;

verus! {

/// The listing of `dir` holds an entry of this name and kind.
pub open spec fn has_entry(
    tree: spec_fn(Seq<Seq<char>>) -> Option<Seq<DirEntryView>>,
    dir: Seq<Seq<char>>,
    name: Seq<char>,
    kind: EntryKind,
) -> bool {
    tree(dir) matches Some(entries) && entries.contains(DirEntryView { name, kind })
}

/// `path` leads to a directory of the tree: it is the root, or it is listed
/// as a directory in a directory of the tree.
pub open spec fn is_dir(
    tree: spec_fn(Seq<Seq<char>>) -> Option<Seq<DirEntryView>>,
    path: Seq<Seq<char>>,
) -> bool
    decreases path.len(),
{
    path.len() == 0 || (is_dir(tree, path.drop_last()) && has_entry(
        tree,
        path.drop_last(),
        path.last(),
        EntryKind::Dir,
    ))
}

/// `path` leads to a regular file of the tree.
pub open spec fn is_file(
    tree: spec_fn(Seq<Seq<char>>) -> Option<Seq<DirEntryView>>,
    path: Seq<Seq<char>>,
) -> bool {
    path.len() > 0 && is_dir(tree, path.drop_last()) && has_entry(
        tree,
        path.drop_last(),
        path.last(),
        EntryKind::File,
    )
}

/// `path` is a regular file of the tree that a walk with these settings
/// reports: none of the names on it is hidden unless hidden entries are
/// included, and its depth is within the limit unless the limit is 0.
pub open spec fn reported(
    tree: spec_fn(Seq<Seq<char>>) -> Option<Seq<DirEntryView>>,
    path: Seq<Seq<char>>,
    max_depth: nat,
    include_hidden: bool,
) -> bool {
    is_file(tree, path) && file_in_bounds(path, max_depth, include_hidden)
}

/// `path` lies somewhere below the directory `dir`.
pub open spec fn below(dir: Seq<Seq<char>>, path: Seq<Seq<char>>) -> bool {
    dir.len() < path.len() && path.take(dir.len() as int) == dir
}

/// A state of a walk through the tree that has lost nothing: the files found
/// are files that the walk reports, the directories to be listed are
/// directories of the tree within the walk's bounds, and every file that the
/// walk reports is found already or lies below a directory still to be
/// listed.
pub open spec fn on_course(
    tree: spec_fn(Seq<Seq<char>>) -> Option<Seq<DirEntryView>>,
    max_depth: nat,
    include_hidden: bool,
    pending: Seq<Seq<Seq<char>>>,
    files: Seq<Seq<Seq<char>>>,
) -> bool {
    &&& forall|i: int|
        0 <= i < files.len() ==> reported(tree, #[trigger] files[i], max_depth, include_hidden)
    &&& forall|i: int|
        0 <= i < pending.len() ==> is_dir(tree, #[trigger] pending[i]) && dir_in_bounds(
            pending[i],
            max_depth,
            include_hidden,
        )
    &&& forall|path: Seq<Seq<char>>| #[trigger]
        reported(tree, path, max_depth, include_hidden) ==> files.contains(path) || exists|i: int|
            0 <= i < pending.len() && below(#[trigger] pending[i], path)
}

proof fn lemma_filter_came_from<A>(s: Seq<A>, pred: spec_fn(A) -> bool, i: int)
    requires
        0 <= i < s.filter(pred).len(),
    ensures
        s.contains(s.filter(pred)[i]),
        pred(s.filter(pred)[i]),
    decreases s.len(),
{
    reveal(Seq::filter);
    if s.len() > 0 {
        let front = s.drop_last();
        if i < front.filter(pred).len() {
            lemma_filter_came_from(front, pred, i);
            let k = choose|k: int| 0 <= k < front.len() && front[k] == front.filter(pred)[i];
            assert(s[k] == front[k]);
        } else {
            assert(s[s.len() - 1] == s.last());
        }
    }
}

proof fn lemma_dir_toward(
    tree: spec_fn(Seq<Seq<char>>) -> Option<Seq<DirEntryView>>,
    dir: Seq<Seq<char>>,
    path: Seq<Seq<char>>,
)
    requires
        below(dir, path),
        is_dir(tree, path),
    ensures
        has_entry(tree, dir, path[dir.len() as int], EntryKind::Dir),
    decreases path.len(),
{
    let parent = path.drop_last();
    if path.len() == dir.len() + 1 {
        assert(parent =~= dir);
    } else {
        assert(parent.take(dir.len() as int) =~= path.take(dir.len() as int));
        lemma_dir_toward(tree, dir, parent);
    }
}

proof fn lemma_file_toward(
    tree: spec_fn(Seq<Seq<char>>) -> Option<Seq<DirEntryView>>,
    dir: Seq<Seq<char>>,
    path: Seq<Seq<char>>,
)
    requires
        below(dir, path),
        is_file(tree, path),
    ensures
        path.len() == dir.len() + 1 ==> has_entry(tree, dir, path.last(), EntryKind::File),
        path.len() > dir.len() + 1 ==> has_entry(
            tree,
            dir,
            path[dir.len() as int],
            EntryKind::Dir,
        ),
{
    let parent = path.drop_last();
    if path.len() == dir.len() + 1 {
        assert(parent =~= dir);
    } else {
        assert(parent.take(dir.len() as int) =~= path.take(dir.len() as int));
        lemma_dir_toward(tree, dir, parent);
    }
}

/// A walk starts on course: with only the root to be listed and nothing
/// found, no file of the tree is lost.
pub proof fn lemma_walk_starts_on_course(
    tree: spec_fn(Seq<Seq<char>>) -> Option<Seq<DirEntryView>>,
    max_depth: nat,
    include_hidden: bool,
)
    ensures
        on_course(
            tree,
            max_depth,
            include_hidden,
            seq![Seq::<Seq<char>>::empty()],
            Seq::<Seq<Seq<char>>>::empty(),
        ),
{
    let root = Seq::<Seq<char>>::empty();
    let pending = seq![root];
    assert(pending[0] == root);
    assert forall|path: Seq<Seq<char>>| #[trigger]
        reported(tree, path, max_depth, include_hidden) implies exists|i: int|
        0 <= i < pending.len() && below(#[trigger] pending[i], path) by {
        assert(path.take(0) =~= root);
        assert(below(pending[0], path));
    }
}

/// A walk stays on course when the directory it lists next is given the
/// tree's own listing.
pub proof fn lemma_walk_stays_on_course(
    tree: spec_fn(Seq<Seq<char>>) -> Option<Seq<DirEntryView>>,
    max_depth: nat,
    include_hidden: bool,
    pending: Seq<Seq<Seq<char>>>,
    files: Seq<Seq<Seq<char>>>,
)
    requires
        on_course(tree, max_depth, include_hidden, pending, files),
        pending.len() > 0,
    ensures
        on_course(
            tree,
            max_depth,
            include_hidden,
            pending_after(pending, tree(pending.last()), max_depth, include_hidden),
            files_after(pending, files, tree(pending.last()), include_hidden),
        ),
{
    let dir = pending.last();
    let rest = pending.drop_last();
    let listing = tree(dir);
    let next_pending = pending_after(pending, listing, max_depth, include_hidden);
    let next_files = files_after(pending, files, listing, include_hidden);
    assert(is_dir(tree, dir) && dir_in_bounds(dir, max_depth, include_hidden)) by {
        assert(pending[pending.len() - 1] == dir);
    }
    match listing {
        None => {
            assert forall|i: int| 0 <= i < next_pending.len() implies is_dir(
                tree,
                #[trigger] next_pending[i],
            ) && dir_in_bounds(next_pending[i], max_depth, include_hidden) by {
                assert(next_pending[i] == pending[i]);
            }
            assert forall|path: Seq<Seq<char>>| #[trigger]
                reported(tree, path, max_depth, include_hidden) implies next_files.contains(path)
                || exists|i: int|
                0 <= i < next_pending.len() && below(#[trigger] next_pending[i], path) by {
                if !files.contains(path) {
                    let i = choose|i: int| 0 <= i < pending.len() && below(#[trigger] pending[i], path);
                    if i == pending.len() - 1 {
                        lemma_file_toward(tree, dir, path);
                        assert(false);
                    }
                    assert(next_pending[i] == pending[i]);
                }
            }
        },
        Some(entries) => {
            let new_files = listed_files(dir, entries, include_hidden);
            let new_dirs = listed_dirs(dir, entries, max_depth, include_hidden);
            lemma_listing_stays_in_bounds(dir, entries, max_depth, include_hidden);
            assert forall|i: int| 0 <= i < next_files.len() implies reported(
                tree,
                #[trigger] next_files[i],
                max_depth,
                include_hidden,
            ) by {
                if i >= files.len() {
                    let k = i - files.len();
                    let kept = entries.filter(file_filter(include_hidden));
                    lemma_filter_came_from(entries, file_filter(include_hidden), k);
                    let file = dir.push(kept[k].name);
                    assert(next_files[i] == new_files[k]);
                    assert(new_files[k] == file);
                    assert(file.drop_last() =~= dir);
                    assert(kept[k] == DirEntryView { name: file.last(), kind: EntryKind::File });
                }
            }
            assert forall|i: int| 0 <= i < next_pending.len() implies is_dir(
                tree,
                #[trigger] next_pending[i],
            ) && dir_in_bounds(next_pending[i], max_depth, include_hidden) by {
                if i >= rest.len() {
                    let k = i - rest.len();
                    let kept = entries.filter(dir_filter(include_hidden));
                    lemma_filter_came_from(entries, dir_filter(include_hidden), k);
                    let sub = dir.push(kept[k].name);
                    assert(next_pending[i] == new_dirs[k]);
                    assert(new_dirs[k] == sub);
                    assert(sub.drop_last() =~= dir);
                    assert(kept[k] == DirEntryView { name: sub.last(), kind: EntryKind::Dir });
                } else {
                    assert(next_pending[i] == pending[i]);
                }
            }
            assert forall|path: Seq<Seq<char>>| #[trigger]
                reported(tree, path, max_depth, include_hidden) implies next_files.contains(path)
                || exists|i: int|
                0 <= i < next_pending.len() && below(#[trigger] next_pending[i], path) by {
                if files.contains(path) {
                    let k = choose|k: int| 0 <= k < files.len() && files[k] == path;
                    assert(next_files[k] == path);
                } else {
                    let i = choose|i: int| 0 <= i < pending.len() && below(#[trigger] pending[i], path);
                    if i < pending.len() - 1 {
                        assert(next_pending[i] == pending[i]);
                    } else {
                        lemma_file_toward(tree, dir, path);
                        let name = path[dir.len() as int];
                        let step = dir.push(name);
                        assert(step =~= path.take(dir.len() as int + 1));
                        assert(admitted(name, include_hidden));
                        if path.len() == dir.len() + 1 {
                            assert(path =~= step);
                            let entry = DirEntryView { name, kind: EntryKind::File };
                            let e = choose|e: int| 0 <= e < entries.len() && entries[e] == entry;
                            lemma_listing_is_complete(dir, entries, max_depth, include_hidden, e);
                            let k = choose|k: int| 0 <= k < new_files.len() && new_files[k] == step;
                            assert(next_files[files.len() + k] == path);
                        } else {
                            let entry = DirEntryView { name, kind: EntryKind::Dir };
                            let e = choose|e: int| 0 <= e < entries.len() && entries[e] == entry;
                            assert(descends(dir.len(), max_depth));
                            lemma_listing_is_complete(dir, entries, max_depth, include_hidden, e);
                            let k = choose|k: int| 0 <= k < new_dirs.len() && new_dirs[k] == step;
                            assert(next_pending[rest.len() + k] == step);
                            assert(below(next_pending[rest.len() + k], path));
                        }
                    }
                }
            }
        },
    }
}

/// A walk that is on course and has no directory left to list has found
/// exactly the files that it reports: every regular file of the tree that
/// lies within the depth limit and has no hidden name on its path unless
/// hidden entries are included, and nothing else.
pub proof fn lemma_finished_walk_is_exact(
    tree: spec_fn(Seq<Seq<char>>) -> Option<Seq<DirEntryView>>,
    max_depth: nat,
    include_hidden: bool,
    files: Seq<Seq<Seq<char>>>,
)
    requires
        on_course(tree, max_depth, include_hidden, Seq::<Seq<Seq<char>>>::empty(), files),
    ensures
        forall|path: Seq<Seq<char>>| #[trigger]
            files.contains(path) <==> reported(tree, path, max_depth, include_hidden),
{
    assert forall|path: Seq<Seq<char>>| #[trigger] files.contains(path) implies reported(
        tree,
        path,
        max_depth,
        include_hidden,
    ) by {
        let k = choose|k: int| 0 <= k < files.len() && files[k] == path;
        assert(reported(tree, files[k], max_depth, include_hidden));
    }
}

} // verus!
