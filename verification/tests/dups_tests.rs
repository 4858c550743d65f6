use finddups::buckets::size_buckets;
use finddups::detect::Detector;
use finddups::digest::FileDigest;
use finddups::remove::DeletionError;
use finddups::remove::FailureKind;
use finddups::remove::Removal;
use finddups::walk::DirEntry;
use finddups::walk::EntryKind;
use finddups::walk::Walker;
use rayon::iter::IntoParallelRefIterator;
use rayon::iter::ParallelIterator;

/// A directory tree held in memory: each file with its content, and each
/// directory, by the names that lead to it from the root.
pub struct TestDir {
    pub files: Vec<(Vec<String>, Vec<u8>)>,
    pub dirs: Vec<Vec<String>>,
    pub file1: Vec<String>,
    pub file2: Vec<String>,
    pub subfile: Vec<String>,
    pub dup1: Vec<String>,
    pub dup2: Vec<String>,
}

fn path(names: &[&str]) -> Vec<String> {
    names.iter().map(|n| n.to_string()).collect()
}

impl TestDir {
    pub fn empty() -> Self {
        Self {
            files: vec![],
            dirs: vec![path(&[])],
            file1: path(&["file1.txt"]),
            file2: path(&["file2.txt"]),
            subfile: path(&["subdir", "subfile.txt"]),
            dup1: path(&["dup1.txt"]),
            dup2: path(&["subdir", "dup2.txt"]),
        }
    }

    /// Creates a tree with files and a subdirectory, including duplicates.
    pub fn new_with_duplicates() -> Self {
        let mut dir = Self::empty();
        dir.dirs.push(path(&["subdir"]));
        dir.files.push((dir.file1.clone(), b"abc".to_vec()));
        dir.files.push((dir.file2.clone(), b"def".to_vec()));
        dir.files.push((dir.subfile.clone(), b"ghi".to_vec()));
        dir.files.push((dir.dup1.clone(), b"DUPLICATE".to_vec()));
        dir.files.push((dir.dup2.clone(), b"DUPLICATE".to_vec()));
        dir
    }

    pub fn new_without_duplicates() -> Self {
        let mut dir = Self::empty();
        dir.dirs.push(path(&["subdir"]));
        dir.files.push((dir.file1.clone(), b"abc".to_vec()));
        dir.files.push((dir.file2.clone(), b"def".to_vec()));
        dir.files.push((dir.subfile.clone(), b"ghi".to_vec()));
        dir.files.push((path(&["subdir", "file3.txt"]), b"jkl".to_vec()));
        dir.files.push((dir.dup1.clone(), b"mno".to_vec()));
        dir.files.push((dir.dup2.clone(), b"pqr".to_vec()));
        dir
    }

    fn read_dir(&self, dir: &Vec<String>) -> Option<Vec<DirEntry>> {
        if !self.dirs.contains(dir) {
            return None;
        }
        let mut entries = Vec::new();
        for (file, _) in &self.files {
            if file.len() == dir.len() + 1 && file[..dir.len()] == dir[..] {
                entries.push(DirEntry { name: file[dir.len()].clone(), kind: EntryKind::File });
            }
        }
        for sub in &self.dirs {
            if sub.len() == dir.len() + 1 && sub[..dir.len()] == dir[..] {
                entries.push(DirEntry { name: sub[dir.len()].clone(), kind: EntryKind::Dir });
            }
        }
        Some(entries)
    }

    fn content(&self, file: &Vec<String>) -> Option<&Vec<u8>> {
        self.files.iter().find(|(f, _)| f == file).map(|(_, c)| c)
    }

    fn holds(&self, file: &Vec<String>) -> bool {
        self.content(file).is_some()
    }

    fn remove_file(&mut self, file: &Vec<String>) -> Option<FailureKind> {
        if self.dirs.contains(file) {
            return Some(FailureKind::IsDirectory);
        }
        match self.files.iter().position(|(f, _)| f == file) {
            Some(at) => {
                self.files.remove(at);
                None
            }
            None => Some(FailureKind::NotFound),
        }
    }
}

fn list_dir(dir: &TestDir, max_depth: usize, include_hidden: bool) -> Vec<Vec<String>> {
    let mut walker = Walker::new(max_depth, include_hidden);
    loop {
        let listing = match walker.current() {
            Some(current) => dir.read_dir(current),
            None => break,
        };
        walker = walker.advance(listing);
    }
    walker.into_files()
}

fn hash_file(dir: &TestDir, file: &Vec<String>) -> Option<String> {
    let content = dir.content(file)?;
    let mut digest = FileDigest::new();
    for chunk in content.chunks(8192) {
        digest.feed(Some(chunk));
    }
    digest.feed(Some(&[]));
    digest.finish()
}

fn find_duplicates(
    dir: &TestDir,
    max_depth: usize,
    include_hidden: bool,
    single_threaded: bool,
) -> Vec<(String, Vec<Vec<String>>)> {
    let files = list_dir(dir, max_depth, include_hidden);
    let sizes: Vec<Option<u64>> =
        files.iter().map(|f| dir.content(f).map(|c| c.len() as u64)).collect();
    let wanted: Vec<usize> = size_buckets(&sizes).into_iter().flatten().collect();
    let hashed: Vec<(usize, Option<String>)> = if single_threaded {
        wanted.iter().map(|&at| (at, hash_file(dir, &files[at]))).collect()
    } else {
        wanted.par_iter().map(|&at| (at, hash_file(dir, &files[at]))).collect()
    };
    let mut digests: Vec<Option<String>> = vec![None; files.len()];
    for (at, digest) in hashed {
        digests[at] = digest;
    }
    finddups::detect::find_duplicates(&sizes, &digests)
        .into_iter()
        .map(|g| (g.digest, g.members.iter().map(|&at| files[at].clone()).collect()))
        .collect()
}

fn delete_files(dir: &mut TestDir, files: &[Vec<String>]) -> Result<(), DeletionError> {
    let mut batch = Removal::new(files.len());
    while let Some(at) = batch.current() {
        let outcome = dir.remove_file(&files[at]);
        batch = batch.record(outcome);
    }
    batch.result().map(|_| ())
}

#[test]
fn test_find_duplicates_empty() {
    let dir = TestDir::empty();
    let result = find_duplicates(&dir, 1, false, false);
    assert!(result.is_empty());
}

#[test]
fn test_find_duplicates_with_dups() {
    let td = TestDir::new_with_duplicates();
    let result = find_duplicates(&td, 0, true, false);
    assert_eq!(result.len(), 1, "Expected one group of duplicates");
    let files = &result[0].1;
    assert_eq!(files.len(), 2, "Expected two duplicate files");
    assert!(files.contains(&td.dup1));
    assert!(files.contains(&td.dup2));
    assert!(!files.contains(&td.file1));
    assert!(!files.contains(&td.file2));
    assert!(!files.contains(&td.subfile));
}

#[test]
fn test_find_duplicates_without_dups() {
    let td = TestDir::new_without_duplicates();
    let result = find_duplicates(&td, 1, true, false);
    assert!(result.is_empty(), "Expected no duplicates");
}

#[test]
fn test_delete_files() {
    let mut dir = TestDir::empty();
    let file_path = path(&["testfile.txt"]);
    dir.files.push((file_path.clone(), b"hello\n".to_vec()));
    assert!(dir.holds(&file_path));
    delete_files(&mut dir, &[file_path.clone()]).unwrap();
    assert!(!dir.holds(&file_path));
}

#[test]
fn test_list_dir_empty() {
    let dir = TestDir::empty();
    let files = list_dir(&dir, 0, true);
    assert!(files.is_empty(), "Expected no files in empty dir");
}

#[test]
fn test_list_dir_with_files_and_subdirs() {
    let td = TestDir::new_with_duplicates();
    let mut files = list_dir(&td, 0, true);
    files.sort();
    let mut expected = vec![td.file1, td.file2, td.subfile, td.dup1, td.dup2];
    expected.sort();
    assert_eq!(files, expected, "Files found do not match expected");
}

#[test]
fn test_multithreaded_vs_singlethreaded_equivalence() {
    let td = TestDir::new_with_duplicates();
    let mt = find_duplicates(&td, 0, true, false);
    let st = find_duplicates(&td, 0, true, true);
    assert_eq!(mt, st, "Multithreaded and single-threaded results should be identical");
}

#[test]
fn delete_files_reports_the_missing_path() {
    let mut dir = TestDir::new_with_duplicates();
    let missing = path(&["nowhere.txt"]);
    let batch = vec![dir.file1.clone(), missing, dir.file2.clone()];
    let result = delete_files(&mut dir, &batch);
    assert_eq!(result, Err(DeletionError { index: 1, kind: FailureKind::NotFound }));
    assert!(!dir.holds(&batch[0]));
    assert!(dir.holds(&batch[2]));
}

#[test]
fn delete_files_reports_a_directory() {
    let mut dir = TestDir::new_with_duplicates();
    let batch = vec![path(&["subdir"]), dir.file1.clone()];
    let result = delete_files(&mut dir, &batch);
    assert_eq!(result, Err(DeletionError { index: 0, kind: FailureKind::IsDirectory }));
    assert!(dir.holds(&batch[1]));
}

#[test]
fn depth_one_sees_only_the_root_files() {
    let td = TestDir::new_with_duplicates();
    let mut files = list_dir(&td, 1, true);
    files.sort();
    let mut expected = vec![td.file1.clone(), td.file2.clone(), td.dup1.clone()];
    expected.sort();
    assert_eq!(files, expected);
    assert!(find_duplicates(&td, 1, true, true).is_empty());
}

#[test]
fn depth_two_reaches_the_subdirectory() {
    let td = TestDir::new_with_duplicates();
    assert_eq!(list_dir(&td, 2, true).len(), 5);
    let groups = find_duplicates(&td, 2, false, true);
    assert_eq!(groups.len(), 1);
    assert_eq!(groups[0].1, vec![td.dup1.clone(), td.dup2.clone()]);
    assert_eq!(groups[0].0, "a45dd8c57dcc3bbf5855a1769008141765e112aea3e982ce1586e1ab64b586df");
}

#[test]
fn hidden_entries_and_what_lies_below_them_are_skipped() {
    let mut td = TestDir::new_with_duplicates();
    td.dirs.push(path(&[".cache"]));
    td.files.push((path(&[".cache", "copy.txt"]), b"DUPLICATE".to_vec()));
    td.files.push((path(&[".hidden.txt"]), b"DUPLICATE".to_vec()));
    let seen = list_dir(&td, 0, false);
    assert_eq!(seen.len(), 5);
    assert!(seen.iter().all(|f| f.iter().all(|name| !name.starts_with('.'))));
    let groups = find_duplicates(&td, 0, false, true);
    assert_eq!(groups.len(), 1);
    assert_eq!(groups[0].1.len(), 2);

    let all = list_dir(&td, 0, true);
    assert_eq!(all.len(), 7);
    let groups = find_duplicates(&td, 0, true, false);
    assert_eq!(groups.len(), 1);
    assert_eq!(groups[0].1.len(), 4);
}

#[test]
fn every_group_holds_files_of_identical_content() {
    let mut td = TestDir::new_with_duplicates();
    td.dirs.push(path(&["subdir", "deep"]));
    td.files.push((path(&["subdir", "deep", "abc_again.txt"]), b"abc".to_vec()));
    td.files.push((path(&["same_size.txt"]), b"DUPLICATf".to_vec()));
    td.files.push((path(&["empty1"]), vec![]));
    td.files.push((path(&["subdir", "empty2"]), vec![]));
    td.files.push((path(&["subdir", "deep", "third.txt"]), b"DUPLICATE".to_vec()));
    for single_threaded in [true, false] {
        let groups = find_duplicates(&td, 0, true, single_threaded);
        assert_eq!(groups.len(), 3);
        for (_, files) in &groups {
            assert!(files.len() >= 2);
            let first = td.content(&files[0]).unwrap();
            assert!(files.iter().all(|f| td.content(f).unwrap() == first));
        }
        let grouped: usize = groups.iter().map(|(_, files)| files.len()).sum();
        assert_eq!(grouped, 7);
        // every file with a twin is in a group, and no other
        for (file, content) in &td.files {
            let twins = td.files.iter().filter(|(_, c)| c == content).count();
            let in_group = groups.iter().any(|(_, files)| files.contains(file));
            assert_eq!(in_group, twins >= 2);
        }
    }
}

#[test]
fn a_file_that_cannot_be_read_drops_out_of_its_group() {
    let td = TestDir::new_with_duplicates();
    let files = list_dir(&td, 0, true);
    let sizes: Vec<Option<u64>> =
        files.iter().map(|f| td.content(f).map(|c| c.len() as u64)).collect();
    let mut detector = Detector::new(&sizes);
    let mut asked = Vec::new();
    while let Some(bucket) = detector.current() {
        asked.extend(bucket.iter().map(|&at| files[at].clone()));
        let digests = bucket
            .iter()
            .map(|&at| if files[at] == td.dup2 { None } else { hash_file(&td, &files[at]) })
            .collect();
        detector = detector.record(digests);
    }
    asked.sort();
    let mut all = files.clone();
    all.sort();
    assert_eq!(asked, all);
    assert!(detector.into_groups().is_empty());
}
