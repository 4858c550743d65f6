use finddups::walk::is_hidden;
use finddups::walk::DirEntry;
use finddups::walk::EntryKind;
use finddups::walk::Walker;

fn path(names: &[&str]) -> Vec<String> {
    names.iter().map(|n| n.to_string()).collect()
}

fn entry(name: &str, kind: EntryKind) -> DirEntry {
    DirEntry { name: name.to_string(), kind }
}

#[test]
fn a_name_is_hidden_when_it_starts_with_a_dot() {
    assert!(is_hidden(".git"));
    assert!(is_hidden("."));
    assert!(is_hidden(".."));
    assert!(!is_hidden("src"));
    assert!(!is_hidden("a.b"));
    assert!(!is_hidden(""));
    assert!(!is_hidden("é.txt"));
}

#[test]
fn a_walk_starts_at_the_root() {
    let walker = Walker::new(0, true);
    assert_eq!(walker.current(), Some(&path(&[])));
    assert!(walker.into_files().is_empty());
}

#[test]
fn an_unreadable_root_gives_an_empty_walk() {
    let walker = Walker::new(0, true).advance(None);
    assert_eq!(walker.current(), None);
    assert!(walker.into_files().is_empty());
}

#[test]
fn a_listing_adds_its_files_and_queues_its_directories() {
    let walker = Walker::new(0, true).advance(Some(vec![
        entry("a.txt", EntryKind::File),
        entry("sub", EntryKind::Dir),
        entry("link", EntryKind::Other),
        entry("b.txt", EntryKind::File),
        entry("more", EntryKind::Dir),
    ]));
    assert_eq!(walker.current(), Some(&path(&["more"])));
    let walker = walker.advance(Some(vec![entry("c.txt", EntryKind::File)]));
    assert_eq!(walker.current(), Some(&path(&["sub"])));
    let walker = walker.advance(None);
    assert_eq!(walker.current(), None);
    assert_eq!(
        walker.into_files(),
        vec![path(&["a.txt"]), path(&["b.txt"]), path(&["more", "c.txt"])]
    );
}

#[test]
fn other_kinds_of_entries_are_ignored() {
    let walker = Walker::new(0, true)
        .advance(Some(vec![entry("socket", EntryKind::Other), entry("link", EntryKind::Other)]));
    assert_eq!(walker.current(), None);
    assert!(walker.into_files().is_empty());
}

#[test]
fn the_depth_limit_bounds_the_directories_listed() {
    let root = || {
        Some(vec![entry("top.txt", EntryKind::File), entry("one", EntryKind::Dir)])
    };
    let one = || Some(vec![entry("mid.txt", EntryKind::File), entry("two", EntryKind::Dir)]);
    let two = || Some(vec![entry("low.txt", EntryKind::File), entry("three", EntryKind::Dir)]);

    let walker = Walker::new(1, true).advance(root());
    assert_eq!(walker.current(), None);
    assert_eq!(walker.into_files(), vec![path(&["top.txt"])]);

    let walker = Walker::new(2, true).advance(root());
    assert_eq!(walker.current(), Some(&path(&["one"])));
    let walker = walker.advance(one());
    assert_eq!(walker.current(), None);
    assert_eq!(walker.into_files(), vec![path(&["top.txt"]), path(&["one", "mid.txt"])]);

    let walker = Walker::new(0, true).advance(root()).advance(one());
    assert_eq!(walker.current(), Some(&path(&["one", "two"])));
    let walker = walker.advance(two());
    assert_eq!(walker.current(), Some(&path(&["one", "two", "three"])));
    let walker = walker.advance(Some(vec![]));
    assert_eq!(walker.current(), None);
    assert_eq!(
        walker.into_files(),
        vec![path(&["top.txt"]), path(&["one", "mid.txt"]), path(&["one", "two", "low.txt"])]
    );
}

#[test]
fn hidden_files_and_directories_are_skipped_unless_included() {
    let listing = || {
        Some(vec![
            entry(".env", EntryKind::File),
            entry("seen.txt", EntryKind::File),
            entry(".git", EntryKind::Dir),
            entry("src", EntryKind::Dir),
        ])
    };
    let walker = Walker::new(0, false).advance(listing());
    assert_eq!(walker.current(), Some(&path(&["src"])));
    let walker = walker.advance(Some(vec![]));
    assert_eq!(walker.current(), None);
    assert_eq!(walker.into_files(), vec![path(&["seen.txt"])]);

    let walker = Walker::new(0, true).advance(listing());
    assert_eq!(walker.current(), Some(&path(&["src"])));
    let walker = walker.advance(Some(vec![]));
    assert_eq!(walker.current(), Some(&path(&[".git"])));
    let walker = walker.advance(Some(vec![entry("config", EntryKind::File)]));
    assert_eq!(walker.current(), None);
    assert_eq!(
        walker.into_files(),
        vec![path(&[".env"]), path(&["seen.txt"]), path(&[".git", "config"])]
    );
}

#[test]
fn a_finished_walk_takes_no_more_listings() {
    let walker = Walker::new(0, true).advance(Some(vec![entry("a", EntryKind::File)]));
    assert_eq!(walker.current(), None);
    let walker = walker.advance(Some(vec![entry("b", EntryKind::File)]));
    assert_eq!(walker.current(), None);
    assert_eq!(walker.into_files(), vec![path(&["a"])]);
}
