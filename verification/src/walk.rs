//! The tree walker: which entries of a directory tree a scan visits.
//!
//! A path is the list of names that leads from the root to an entry; the root
//! is the empty list and its direct children have depth 1. The walker never
//! lists a directory itself: it names the next directory, takes that
//! directory's listing from the caller, and keeps the regular files it finds.

use vstd::prelude::*;

verus! {

/// What kind of thing a directory entry is.
#[derive(Clone, Copy, Debug, PartialEq, Eq, Structural)]
pub enum EntryKind {
    /// A regular file.
    File,
    /// A directory.
    Dir,
    /// Anything else: a symbolic link, a socket, a device.
    Other,
}

/// One entry of a directory listing.
#[derive(Debug)]
pub struct DirEntry {
    /// The entry's base name.
    pub name: String,
    /// The entry's kind.
    pub kind: EntryKind,
}

/// A directory entry as a mathematical value.
pub struct DirEntryView {
    pub name: Seq<char>,
    pub kind: EntryKind,
}

impl View for DirEntry {
    type V = DirEntryView;

    open spec fn view(&self) -> DirEntryView {
        DirEntryView { name: self.name@, kind: self.kind }
    }
}

impl DeepView for DirEntry {
    type V = DirEntryView;

    open spec fn deep_view(&self) -> DirEntryView {
        self@
    }
}

/// A name is hidden when it begins with a dot.
pub open spec fn is_hidden_name(name: Seq<char>) -> bool {
    name.len() > 0 && name[0] == '.'
}

/// Whether a walk with this setting visits an entry of this name.
pub open spec fn admitted(name: Seq<char>, include_hidden: bool) -> bool {
    include_hidden || !is_hidden_name(name)
}

/// Whether a walk with this depth limit lists the subdirectories of a
/// directory whose own path has `dir_len` names. The limit 0 stands for none.
pub open spec fn descends(dir_len: nat, max_depth: nat) -> bool {
    max_depth == 0 || dir_len + 1 < max_depth
}

/// No name on the path is hidden, unless hidden entries are included.
pub open spec fn path_visible(path: Seq<Seq<char>>, include_hidden: bool) -> bool {
    forall|k: int| 0 <= k < path.len() ==> admitted(#[trigger] path[k], include_hidden)
}

/// A directory that a walk with these settings may list.
pub open spec fn dir_in_bounds(dir: Seq<Seq<char>>, max_depth: nat, include_hidden: bool) -> bool {
    &&& max_depth == 0 || dir.len() < max_depth
    &&& path_visible(dir, include_hidden)
}

/// A file that a walk with these settings may report.
pub open spec fn file_in_bounds(file: Seq<Seq<char>>, max_depth: nat, include_hidden: bool) -> bool {
    &&& file.len() >= 1
    &&& max_depth == 0 || file.len() <= max_depth
    &&& path_visible(file, include_hidden)
}

/// Selects the regular files that are visited.
pub open spec fn file_filter(include_hidden: bool) -> spec_fn(DirEntryView) -> bool {
    |e: DirEntryView| e.kind is File && admitted(e.name, include_hidden)
}

/// Selects the directories that are visited.
pub open spec fn dir_filter(include_hidden: bool) -> spec_fn(DirEntryView) -> bool {
    |e: DirEntryView| e.kind is Dir && admitted(e.name, include_hidden)
}

/// Maps an entry of `dir` to its path.
pub open spec fn path_below(dir: Seq<Seq<char>>) -> spec_fn(DirEntryView) -> Seq<Seq<char>> {
    |e: DirEntryView| dir.push(e.name)
}

/// The files that listing `dir` adds to a walk, in listing order.
pub open spec fn listed_files(
    dir: Seq<Seq<char>>,
    entries: Seq<DirEntryView>,
    include_hidden: bool,
) -> Seq<Seq<Seq<char>>> {
    entries.filter(file_filter(include_hidden)).map_values(path_below(dir))
}

/// The directories that listing `dir` leaves to be listed, in listing order.
pub open spec fn listed_dirs(
    dir: Seq<Seq<char>>,
    entries: Seq<DirEntryView>,
    max_depth: nat,
    include_hidden: bool,
) -> Seq<Seq<Seq<char>>> {
    if descends(dir.len(), max_depth) {
        entries.filter(dir_filter(include_hidden)).map_values(path_below(dir))
    } else {
        Seq::empty()
    }
}

/// The files found after the directory listed next has given `listing`,
/// `None` standing for a directory that could not be read. A walk that is
/// over finds nothing more.
pub open spec fn files_after(
    pending: Seq<Seq<Seq<char>>>,
    files: Seq<Seq<Seq<char>>>,
    listing: Option<Seq<DirEntryView>>,
    include_hidden: bool,
) -> Seq<Seq<Seq<char>>> {
    if pending.len() == 0 {
        files
    } else {
        match listing {
            Some(entries) => files + listed_files(pending.last(), entries, include_hidden),
            None => files,
        }
    }
}

/// The directories still to be listed after the one listed next, which is
/// the last of `pending`, has given `listing`.
pub open spec fn pending_after(
    pending: Seq<Seq<Seq<char>>>,
    listing: Option<Seq<DirEntryView>>,
    max_depth: nat,
    include_hidden: bool,
) -> Seq<Seq<Seq<char>>> {
    if pending.len() == 0 {
        pending
    } else {
        match listing {
            Some(entries) => pending.drop_last() + listed_dirs(
                pending.last(),
                entries,
                max_depth,
                include_hidden,
            ),
            None => pending.drop_last(),
        }
    }
}

/// Tells whether a name is hidden.
pub fn is_hidden(name: &str) -> (hidden: bool)
    ensures
        hidden == is_hidden_name(name@),
{
    if name.is_empty() {
        false
    } else {
        name.get_char(0) == '.'
    }
}

proof fn lemma_listed_files_step(
    dir: Seq<Seq<char>>,
    entries: Seq<DirEntryView>,
    i: int,
    include_hidden: bool,
)
    requires
        0 <= i < entries.len(),
    ensures
        listed_files(dir, entries.take(i + 1), include_hidden) == if file_filter(include_hidden)(
            entries[i],
        ) {
            listed_files(dir, entries.take(i), include_hidden).push(dir.push(entries[i].name))
        } else {
            listed_files(dir, entries.take(i), include_hidden)
        },
{
    let before = entries.take(i);
    assert(entries.take(i + 1) =~= before.push(entries[i]));
    before.lemma_filter_push(entries[i], file_filter(include_hidden));
    before.filter(file_filter(include_hidden)).lemma_push_map_commute(path_below(dir), entries[i]);
}

proof fn lemma_listed_dirs_step(
    dir: Seq<Seq<char>>,
    entries: Seq<DirEntryView>,
    i: int,
    max_depth: nat,
    include_hidden: bool,
)
    requires
        0 <= i < entries.len(),
    ensures
        listed_dirs(dir, entries.take(i + 1), max_depth, include_hidden) == if descends(
            dir.len(),
            max_depth,
        ) && dir_filter(include_hidden)(entries[i]) {
            listed_dirs(dir, entries.take(i), max_depth, include_hidden).push(
                dir.push(entries[i].name),
            )
        } else {
            listed_dirs(dir, entries.take(i), max_depth, include_hidden)
        },
{
    let before = entries.take(i);
    assert(entries.take(i + 1) =~= before.push(entries[i]));
    before.lemma_filter_push(entries[i], dir_filter(include_hidden));
    before.filter(dir_filter(include_hidden)).lemma_push_map_commute(path_below(dir), entries[i]);
}

/// Listing a directory that lies within the bounds of a walk yields only
/// files and directories that lie within them too: none deeper than the
/// limit, and none with a hidden name on its path unless hidden entries are
/// included.
pub proof fn lemma_listing_stays_in_bounds(
    dir: Seq<Seq<char>>,
    entries: Seq<DirEntryView>,
    max_depth: nat,
    include_hidden: bool,
)
    requires
        dir_in_bounds(dir, max_depth, include_hidden),
    ensures
        forall|i: int|
            0 <= i < listed_files(dir, entries, include_hidden).len() ==> file_in_bounds(
                #[trigger] listed_files(dir, entries, include_hidden)[i],
                max_depth,
                include_hidden,
            ),
        forall|i: int|
            0 <= i < listed_dirs(dir, entries, max_depth, include_hidden).len() ==> dir_in_bounds(
                #[trigger] listed_dirs(dir, entries, max_depth, include_hidden)[i],
                max_depth,
                include_hidden,
            ),
{
    broadcast use vstd::seq_lib::group_filter_ensures;

    let files = entries.filter(file_filter(include_hidden));
    assert forall|i: int|
        0 <= i < listed_files(dir, entries, include_hidden).len() implies file_in_bounds(
        #[trigger] listed_files(dir, entries, include_hidden)[i],
        max_depth,
        include_hidden,
    ) by {
        assert(file_filter(include_hidden)(files[i]));
    }
    let dirs = entries.filter(dir_filter(include_hidden));
    assert forall|i: int|
        0 <= i < listed_dirs(dir, entries, max_depth, include_hidden).len() implies dir_in_bounds(
        #[trigger] listed_dirs(dir, entries, max_depth, include_hidden)[i],
        max_depth,
        include_hidden,
    ) by {
        assert(dir_filter(include_hidden)(dirs[i]));
    }
}

/// Listing a directory misses no visited entry: every regular file of the
/// listing that is visited is among the files found, and, where the depth
/// limit reaches its subdirectories, which it always does when the limit is
/// 0, every visited directory is left to be listed.
pub proof fn lemma_listing_is_complete(
    dir: Seq<Seq<char>>,
    entries: Seq<DirEntryView>,
    max_depth: nat,
    include_hidden: bool,
    i: int,
)
    requires
        0 <= i < entries.len(),
        admitted(entries[i].name, include_hidden),
    ensures
        descends(dir.len(), 0),
        entries[i].kind is File ==> listed_files(dir, entries, include_hidden).contains(
            dir.push(entries[i].name),
        ),
        entries[i].kind is Dir && descends(dir.len(), max_depth) ==> listed_dirs(
            dir,
            entries,
            max_depth,
            include_hidden,
        ).contains(dir.push(entries[i].name)),
{
    broadcast use vstd::seq_lib::group_filter_ensures;

    if entries[i].kind is File {
        let kept = entries.filter(file_filter(include_hidden));
        assert(file_filter(include_hidden)(entries[i]));
        assert(kept.contains(entries[i]));
        let k = choose|k: int| 0 <= k < kept.len() && kept[k] == entries[i];
        assert(kept.map_values(path_below(dir))[k] == dir.push(entries[i].name));
    }
    if entries[i].kind is Dir && descends(dir.len(), max_depth) {
        let kept = entries.filter(dir_filter(include_hidden));
        assert(dir_filter(include_hidden)(entries[i]));
        assert(kept.contains(entries[i]));
        let k = choose|k: int| 0 <= k < kept.len() && kept[k] == entries[i];
        assert(kept.map_values(path_below(dir))[k] == dir.push(entries[i].name));
    }
}

/// The path of the entry `name` of the directory `dir`.
fn child_path(dir: &Vec<String>, name: &String) -> (path: Vec<String>)
    ensures
        path.deep_view() == dir.deep_view().push(name@),
{
    let mut path: Vec<String> = Vec::new();
    let mut i: usize = 0;
    while i < dir.len()
        invariant
            i <= dir.len(),
            path@.len() == i,
            forall|k: int| 0 <= k < i ==> (#[trigger] path@[k])@ == dir@[k]@,
        decreases dir.len() - i,
    {
        path.push(dir[i].clone());
        i = i + 1;
    }
    path.push(name.clone());
    assert(path.deep_view() =~= dir.deep_view().push(name@)) by {
        assert forall|k: int| 0 <= k < path@.len() implies #[trigger] path.deep_view()[k]
            == dir.deep_view().push(name@)[k] by {
            assert(path.deep_view()[k] == path@[k]@);
            if k < dir@.len() {
                assert(dir.deep_view()[k] == dir@[k]@);
            }
        }
    }
    path
}

/// A walk in progress: the directories still to be listed and the files found
/// so far.
pub struct Walker {
    max_depth: usize,
    include_hidden: bool,
    pending: Vec<Vec<String>>,
    files: Vec<Vec<String>>,
}

impl Walker {
    #[verifier::type_invariant]
    spec fn within_bounds(self) -> bool {
        &&& forall|i: int|
            0 <= i < self.pending@.len() ==> dir_in_bounds(
                #[trigger] self.pending@[i].deep_view(),
                self.max_depth as nat,
                self.include_hidden,
            )
        &&& forall|i: int|
            0 <= i < self.files@.len() ==> file_in_bounds(
                #[trigger] self.files@[i].deep_view(),
                self.max_depth as nat,
                self.include_hidden,
            )
    }

    /// The depth limit of this walk; 0 stands for none.
    pub closed spec fn max_depth(&self) -> nat {
        self.max_depth as nat
    }

    /// Whether this walk visits hidden entries.
    pub closed spec fn include_hidden(&self) -> bool {
        self.include_hidden
    }

    /// The directories still to be listed; the last one is listed next.
    pub closed spec fn pending(&self) -> Seq<Seq<Seq<char>>> {
        self.pending.deep_view()
    }

    /// The files found so far, in the order they were found.
    pub closed spec fn files(&self) -> Seq<Seq<Seq<char>>> {
        self.files.deep_view()
    }

    /// Starts a walk: only the root is to be listed, and nothing is found yet.
    pub fn new(max_depth: usize, include_hidden: bool) -> (walker: Walker)
        ensures
            walker.max_depth() == max_depth,
            walker.include_hidden() == include_hidden,
            walker.pending() == seq![Seq::<Seq<char>>::empty()],
            walker.files() == Seq::<Seq<Seq<char>>>::empty(),
    {
        let root: Vec<String> = Vec::new();
        let mut pending: Vec<Vec<String>> = Vec::new();
        assert(root.deep_view() =~= Seq::<Seq<char>>::empty());
        pending.push(root);
        let files: Vec<Vec<String>> = Vec::new();
        assert(pending.deep_view() =~= seq![Seq::<Seq<char>>::empty()]);
        assert(files.deep_view() =~= Seq::<Seq<Seq<char>>>::empty());
        Walker { max_depth, include_hidden, pending, files }
    }

    /// The directory whose listing the walk awaits, or `None` when the walk
    /// is over. It lies within the depth limit and, unless hidden entries are
    /// included, has no hidden name on its path.
    pub fn current(&self) -> (dir: Option<&Vec<String>>)
        ensures
            match dir {
                Some(d) => self.pending().len() > 0 && d.deep_view() == self.pending().last()
                    && dir_in_bounds(d.deep_view(), self.max_depth(), self.include_hidden()),
                None => self.pending().len() == 0,
            },
    {
        proof {
            use_type_invariant(self);
        }
        let n = self.pending.len();
        if n == 0 {
            None
        } else {
            Some(&self.pending[n - 1])
        }
    }

    /// Takes the listing of the current directory, `None` if it could not be
    /// read, and gives the walk's next state. The regular files among the
    /// visited entries are added to the files found, and the visited
    /// subdirectories are left to be listed if the depth limit reaches them.
    /// An unreadable directory adds nothing. When the walk is over, nothing
    /// changes.
    pub fn advance(self, listing: Option<Vec<DirEntry>>) -> (next: Walker)
        ensures
            next.max_depth() == self.max_depth(),
            next.include_hidden() == self.include_hidden(),
            next.files() == files_after(
                self.pending(),
                self.files(),
                listing.deep_view(),
                self.include_hidden(),
            ),
            next.pending() == pending_after(
                self.pending(),
                listing.deep_view(),
                self.max_depth(),
                self.include_hidden(),
            ),
    {
        proof {
            use_type_invariant(&self);
        }
        let Walker { max_depth, include_hidden, mut pending, mut files } = self;
        let dir = match pending.pop() {
            Some(d) => d,
            None => {
                return Walker { max_depth, include_hidden, pending, files };
            },
        };
        assert(pending.deep_view() =~= self.pending.deep_view().drop_last());
        assert(dir.deep_view() == self.pending.deep_view().last());
        let entries = match listing {
            Some(e) => e,
            None => {
                return Walker { max_depth, include_hidden, pending, files };
            },
        };
        let deeper = max_depth == 0 || dir.len() + 1 < max_depth;
        let ghost rest = pending.deep_view();
        let ghost found = files.deep_view();
        let ghost here = dir.deep_view();
        let ghost shown = entries.deep_view();
        let mut i: usize = 0;
        assert(shown.take(0) =~= Seq::<DirEntryView>::empty());
        while i < entries.len()
            invariant
                i <= entries.len(),
                here == dir.deep_view(),
                shown == entries.deep_view(),
                dir_in_bounds(here, max_depth as nat, include_hidden),
                deeper == descends(here.len(), max_depth as nat),
                files.deep_view() == found + listed_files(
                    here,
                    shown.take(i as int),
                    include_hidden,
                ),
                pending.deep_view() == rest + listed_dirs(
                    here,
                    shown.take(i as int),
                    max_depth as nat,
                    include_hidden,
                ),
                forall|k: int|
                    0 <= k < pending@.len() ==> dir_in_bounds(
                        #[trigger] pending@[k].deep_view(),
                        max_depth as nat,
                        include_hidden,
                    ),
                forall|k: int|
                    0 <= k < files@.len() ==> file_in_bounds(
                        #[trigger] files@[k].deep_view(),
                        max_depth as nat,
                        include_hidden,
                    ),
            decreases entries.len() - i,
        {
            proof {
                lemma_listed_files_step(here, shown, i as int, include_hidden);
                lemma_listed_dirs_step(here, shown, i as int, max_depth as nat, include_hidden);
                assert(shown[i as int] == entries@[i as int]@);
            }
            let entry = &entries[i];
            if include_hidden || !is_hidden(entry.name.as_str()) {
                match entry.kind {
                    EntryKind::File => {
                        let path = child_path(&dir, &entry.name);
                        let ghost before = files.deep_view();
                        files.push(path);
                        assert(files.deep_view() =~= before.push(path.deep_view()));
                    },
                    EntryKind::Dir => {
                        if deeper {
                            let path = child_path(&dir, &entry.name);
                            let ghost before = pending.deep_view();
                            pending.push(path);
                            assert(pending.deep_view() =~= before.push(path.deep_view()));
                        }
                    },
                    EntryKind::Other => {},
                }
            }
            i = i + 1;
        }
        assert(shown.take(i as int) =~= shown);
        Walker { max_depth, include_hidden, pending, files }
    }

    /// Ends the walk and hands out the files found. Each lies within the
    /// depth limit and, unless hidden entries are included, has no hidden
    /// name on its path.
    pub fn into_files(self) -> (files: Vec<Vec<String>>)
        ensures
            files.deep_view() == self.files(),
            forall|i: int|
                0 <= i < files.deep_view().len() ==> file_in_bounds(
                    #[trigger] files.deep_view()[i],
                    self.max_depth(),
                    self.include_hidden(),
                ),
    {
        proof {
            use_type_invariant(&self);
        }
        self.files
    }
}

} // verus!
