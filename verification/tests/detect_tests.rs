use finddups::buckets::size_buckets;
use finddups::detect::find_duplicates;
use finddups::detect::Detector;
use finddups::detect::DuplicateGroup;
use finddups::grouping::group_positions;
use finddups::grouping::Key;

fn digests(names: &[Option<&str>]) -> Vec<Option<String>> {
    names.iter().map(|n| n.map(|d| d.to_string())).collect()
}

fn group(digest: &str, members: &[usize]) -> DuplicateGroup {
    DuplicateGroup { digest: digest.to_string(), members: members.to_vec() }
}

#[test]
fn keys_are_the_same_when_they_are_equal() {
    assert!(7u64.same(&7));
    assert!(!7u64.same(&8));
    assert!("ab".to_string().same(&"ab".to_string()));
    assert!(!"ab".to_string().same(&"ba".to_string()));
}

#[test]
fn positions_are_grouped_by_key_in_order_of_first_occurrence() {
    let keys: Vec<Option<u64>> = vec![Some(5), Some(3), None, Some(5), Some(7), Some(3), Some(5)];
    assert_eq!(group_positions(&keys), vec![vec![0, 3, 6], vec![1, 5]]);
}

#[test]
fn sizes_are_bucketed_in_order_of_first_occurrence() {
    let sizes: Vec<Option<u64>> = vec![Some(5), Some(3), None, Some(5), Some(7), Some(3), Some(5)];
    assert_eq!(size_buckets(&sizes), vec![vec![0, 3, 6], vec![1, 5]]);
    assert_eq!(size_buckets(&sizes), group_positions(&sizes));
    assert!(size_buckets(&vec![]).is_empty());
    assert!(size_buckets(&vec![None, Some(0), None, Some(1)]).is_empty());
    assert_eq!(size_buckets(&vec![Some(0), Some(u64::MAX), Some(0), Some(u64::MAX)]), vec![
        vec![0, 2],
        vec![1, 3]
    ]);
}

#[test]
fn bucketing_many_sizes_agrees_with_grouping_by_key() {
    let sizes: Vec<Option<u64>> =
        (0..500u64).map(|i| if i % 11 == 0 { None } else { Some((i * i) % 97) }).collect();
    let buckets = size_buckets(&sizes);
    assert_eq!(buckets, group_positions(&sizes));
    assert!(buckets.iter().all(|b| b.len() >= 2));
    assert!(buckets.iter().all(|b| b.iter().all(|&p| sizes[p] == sizes[b[0]])));
    let bucketed: usize = buckets.iter().map(|b| b.len()).sum();
    assert_eq!(bucketed, sizes.iter().filter(|s| s.is_some()).count());
}

#[test]
fn a_key_borne_once_and_a_missing_key_form_no_group() {
    let keys: Vec<Option<u64>> = vec![Some(1), None, Some(2), None, Some(3)];
    assert!(group_positions(&keys).is_empty());
    let none: Vec<Option<u64>> = vec![];
    assert!(group_positions(&none).is_empty());
    let missing: Vec<Option<u64>> = vec![None, None];
    assert!(group_positions(&missing).is_empty());
}

#[test]
fn grouping_does_not_depend_on_the_order_of_arrival() {
    let a = digests(&[Some("x"), Some("y"), Some("x"), None, Some("y"), Some("z")]);
    // the same keys, position i of b being position to_a[i] of a
    let to_a = [5usize, 4, 3, 2, 1, 0];
    let b: Vec<Option<String>> = to_a.iter().map(|&p| a[p].clone()).collect();
    let mut in_a: Vec<Vec<usize>> = group_positions(&a);
    let mut in_b: Vec<Vec<usize>> = group_positions(&b)
        .into_iter()
        .map(|g| {
            let mut moved: Vec<usize> = g.into_iter().map(|i| to_a[i]).collect();
            moved.sort();
            moved
        })
        .collect();
    in_a.sort();
    in_b.sort();
    assert_eq!(in_a, vec![vec![0, 2], vec![1, 4]]);
    assert_eq!(in_a, in_b);
}

#[test]
fn files_of_a_unique_size_are_never_asked_to_be_hashed() {
    let detector = Detector::new(&vec![Some(1), Some(2), None, Some(3)]);
    assert_eq!(detector.current(), None);
    assert!(detector.into_groups().is_empty());
}

#[test]
fn buckets_are_hashed_one_after_the_other() {
    let sizes = vec![Some(3), Some(9), Some(3), Some(9), Some(3), None, Some(4)];
    let detector = Detector::new(&sizes);
    assert_eq!(detector.current(), Some(&vec![0, 2, 4]));
    let detector = detector.record(digests(&[Some("aa"), Some("bb"), Some("aa")]));
    assert_eq!(detector.current(), Some(&vec![1, 3]));
    let detector = detector.record(digests(&[Some("cc"), Some("cc")]));
    assert_eq!(detector.current(), None);
    assert_eq!(detector.into_groups(), vec![group("aa", &[0, 4]), group("cc", &[1, 3])]);
}

#[test]
fn equal_sizes_with_different_content_are_no_duplicates() {
    let detector = Detector::new(&vec![Some(3), Some(3), Some(3)]);
    let detector = detector.record(digests(&[Some("aa"), Some("bb"), Some("cc")]));
    assert_eq!(detector.current(), None);
    assert!(detector.into_groups().is_empty());
}

#[test]
fn an_unreadable_file_is_left_out_of_its_bucket() {
    let detector = Detector::new(&vec![Some(3), Some(3), Some(3)]);
    let detector = detector.record(digests(&[Some("aa"), None, Some("aa")]));
    assert_eq!(detector.into_groups(), vec![group("aa", &[0, 2])]);

    let detector = Detector::new(&vec![Some(3), Some(3)]);
    let detector = detector.record(digests(&[Some("aa"), None]));
    assert!(detector.into_groups().is_empty());
}

#[test]
fn missing_digests_count_as_unreadable_and_surplus_ones_are_ignored() {
    let detector = Detector::new(&vec![Some(3), Some(3), Some(3)]);
    let detector = detector.record(digests(&[Some("aa"), Some("aa")]));
    assert_eq!(detector.into_groups(), vec![group("aa", &[0, 1])]);

    let detector = Detector::new(&vec![Some(3), Some(3)]);
    let detector = detector.record(digests(&[Some("aa"), Some("bb"), Some("aa"), Some("bb")]));
    assert!(detector.into_groups().is_empty());
}

#[test]
fn a_digest_recorded_again_takes_the_place_of_the_earlier_group() {
    let sizes = vec![Some(1), Some(1), Some(2), Some(2), Some(5), Some(5)];
    let detector = Detector::new(&sizes)
        .record(digests(&[Some("aa"), Some("aa")]))
        .record(digests(&[Some("bb"), Some("bb")]))
        .record(digests(&[Some("aa"), Some("aa")]));
    assert_eq!(detector.current(), None);
    assert_eq!(detector.into_groups(), vec![group("aa", &[4, 5]), group("bb", &[2, 3])]);
}

#[test]
fn a_finished_detection_takes_no_more_digests() {
    let detector = Detector::new(&vec![Some(1), Some(1)])
        .record(digests(&[Some("aa"), Some("aa")]))
        .record(digests(&[Some("bb"), Some("bb")]));
    assert_eq!(detector.into_groups(), vec![group("aa", &[0, 1])]);
}

#[test]
fn no_group_has_fewer_than_two_members() {
    let sizes: Vec<Option<u64>> = (0..40).map(|i| Some(i % 7)).collect();
    let mut detector = Detector::new(&sizes);
    while let Some(bucket) = detector.current() {
        let found = bucket.iter().map(|&at| Some(format!("d{}", at % 3))).collect();
        detector = detector.record(found);
    }
    let groups = detector.into_groups();
    assert!(!groups.is_empty());
    assert!(groups.iter().all(|g| g.members.len() >= 2));
    for (i, g) in groups.iter().enumerate() {
        assert!(groups.iter().skip(i + 1).all(|h| h.digest != g.digest));
    }
}

#[test]
fn duplicates_are_found_from_sizes_and_digests() {
    let sizes = vec![Some(3), Some(9), Some(3), Some(9), Some(3), None, Some(4)];
    let found = find_duplicates(
        &sizes,
        &digests(&[Some("aa"), Some("cc"), Some("bb"), Some("cc"), Some("aa"), Some("aa"), Some("aa")]),
    );
    assert_eq!(found, vec![group("aa", &[0, 4]), group("cc", &[1, 3])]);
}

#[test]
fn digests_of_files_with_a_size_of_their_own_are_not_looked_at() {
    let sizes = vec![Some(1), Some(2), Some(3), None, None];
    let same = digests(&[Some("aa"), Some("aa"), Some("aa"), Some("aa"), Some("aa")]);
    assert!(find_duplicates(&sizes, &same).is_empty());
}

#[test]
fn digests_missing_from_the_end_count_as_unreadable() {
    let sizes = vec![Some(3), Some(3), Some(3), Some(3)];
    assert_eq!(
        find_duplicates(&sizes, &digests(&[Some("aa"), Some("bb"), Some("aa")])),
        vec![group("aa", &[0, 2])]
    );
    assert!(find_duplicates(&sizes, &vec![]).is_empty());
    assert!(find_duplicates(&vec![], &digests(&[Some("aa"), Some("aa")])).is_empty());
}

#[test]
fn one_detection_step_by_step_gives_what_the_whole_gives() {
    let sizes: Vec<Option<u64>> = (0..60).map(|i| Some(i % 5)).collect();
    let all: Vec<Option<String>> =
        (0..60).map(|i| if i % 13 == 0 { None } else { Some(format!("d{}", i % 10)) }).collect();
    let mut detector = Detector::new(&sizes);
    while let Some(bucket) = detector.current() {
        let picked = bucket.iter().map(|&at| all[at].clone()).collect();
        detector = detector.record(picked);
    }
    assert_eq!(detector.into_groups(), find_duplicates(&sizes, &all));
}
