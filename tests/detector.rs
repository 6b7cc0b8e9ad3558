use git_cvs_fast_import::detector::{Detector, PatchSet};

fn add(d: &mut Detector, path: &str, id: Option<u64>, message: &str, time: u64) {
    d.add_file_commit(
        path.as_bytes().to_vec(),
        id,
        b"author".to_vec(),
        message.as_bytes().to_vec(),
        time,
    );
}

fn check(p: &PatchSet, time: u64, message: &str, files: &[(&str, Vec<Option<u64>>)]) {
    assert_eq!(p.time, time);
    assert_eq!(p.author, b"author".to_vec());
    assert_eq!(p.message, message.as_bytes().to_vec());
    assert_eq!(p.len(), files.iter().map(|(_, ids)| ids.len()).sum::<usize>());
    for (path, ids) in files {
        assert_eq!(&p.file_revisions(path.as_bytes()), ids);
        assert_eq!(p.file_content(path.as_bytes()), ids.last().copied());
    }
}

#[test]
fn test_detector() {
    let mut detector = Detector::new(120);
    let message = "message in a bottle";

    // Add two files on the same commit.
    add(&mut detector, "foo", Some(1), message, 100);
    add(&mut detector, "bar", Some(2), message, 101);
    // Mutate foo on a new commit.
    add(&mut detector, "foo", Some(3), message, 300);
    // Add a file on a separate commit.
    add(&mut detector, "bar", Some(4), "this is a different message", 90);
    // Re-add foo on the same commit as the first one.
    add(&mut detector, "foo", Some(5), message, 120);

    let have = detector.into_patchset_iter();
    assert_eq!(have.len(), 3);
    check(&have[0], 90, "this is a different message", &[("bar", vec![Some(4)])]);
    check(
        &have[1],
        120,
        message,
        &[("foo", vec![Some(1), Some(5)]), ("bar", vec![Some(2)])],
    );
    check(&have[2], 300, message, &[("foo", vec![Some(3)])]);
}

#[test]
fn detector_keeps_deletions() {
    let mut detector = Detector::new(120);
    let message = "fixed";
    add(&mut detector, "foo", Some(1), message, 100);
    add(&mut detector, "bar", Some(2), message, 101);
    add(&mut detector, "foo", Some(4), message, 120);
    add(&mut detector, "foo", None, message, 300);
    add(&mut detector, "bar", Some(3), "dissent", 90);

    let have = detector.into_patchset_iter();
    assert_eq!(have.len(), 3);
    check(&have[0], 90, "dissent", &[("bar", vec![Some(3)])]);
    check(
        &have[1],
        120,
        message,
        &[("foo", vec![Some(1), Some(4)]), ("bar", vec![Some(2)])],
    );
    check(&have[2], 300, message, &[("foo", vec![None])]);
    assert_eq!(have[2].file_content(b"bar"), None);
}

#[test]
fn detector_output_is_sorted_and_complete() {
    let mut detector = Detector::new(10);
    // Out of order, with a gap that only sorting reveals as a single run.
    add(&mut detector, "a", Some(1), "m", 40);
    add(&mut detector, "b", Some(2), "m", 55);
    add(&mut detector, "c", Some(3), "m", 47);
    add(&mut detector, "d", Some(4), "n", 10);
    add(&mut detector, "e", Some(5), "n", 100);
    let have = detector.into_patchset_iter();
    let times: Vec<u64> = have.iter().map(|p| p.time).collect();
    assert_eq!(times, vec![10, 55, 100]);
    let total: usize = have.iter().map(|p| p.len()).sum();
    assert_eq!(total, 5);
    check(
        &have[1],
        55,
        "m",
        &[("a", vec![Some(1)]), ("c", vec![Some(3)]), ("b", vec![Some(2)])],
    );
}

#[test]
fn detector_gap_equal_to_delta_joins() {
    let mut detector = Detector::new(120);
    add(&mut detector, "a", Some(1), "m", 0);
    add(&mut detector, "a", Some(2), "m", 120);
    add(&mut detector, "a", Some(3), "m", 241);
    let have = detector.into_patchset_iter();
    assert_eq!(have.len(), 2);
    check(&have[0], 120, "m", &[("a", vec![Some(1), Some(2)])]);
    check(&have[1], 241, "m", &[("a", vec![Some(3)])]);
}

#[test]
fn detector_empty() {
    assert!(Detector::new(5).into_patchset_iter().is_empty());
}
