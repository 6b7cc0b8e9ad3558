use git_cvs_fast_import::fast_import::Writer;
use git_cvs_fast_import::import::send_branch;
use git_cvs_fast_import::tag::send_tag;
use git_cvs_fast_import::detector::Detector;
use git_cvs_fast_import::fast_import::{Identity, Mark};
use git_cvs_fast_import::import::PatchsetStep;
use git_cvs_fast_import::persist::{Frame, FrameError};
use git_cvs_fast_import::state::{Manager, StateError};
use git_cvs_fast_import::tag::TagStep;

fn add(s: &mut Manager, path: &str, rev: &str, mark: Option<usize>, time: u64) -> u64 {
    s.add_file_revision(
        path.as_bytes().to_vec(),
        rev.as_bytes().to_vec(),
        mark.map(Mark),
        vec![b"main".to_vec()],
        b"adam".to_vec(),
        b"msg".to_vec(),
        time,
    )
}

#[test]
fn file_revisions_are_idempotent() {
    let mut s = Manager::new();
    let a = add(&mut s, "foo", "1.1", Some(1), 10);
    let b = add(&mut s, "bar", "1.1", None, 11);
    assert_eq!((a, b), (0, 1));
    assert_eq!(add(&mut s, "foo", "1.1", Some(99), 12), 0);
    assert_eq!(s.file_revisions.len(), 2);
    assert_eq!(s.get_file_revision(b"foo", b"1.1").unwrap().mark, Some(Mark(1)));
    assert_eq!(
        s.get_file_revision(b"foo", b"1.2").unwrap_err(),
        StateError::NoFileRevisionForKey
    );
    assert_eq!(s.get_file_revision_by_id(1).unwrap().path, b"bar".to_vec());
    assert_eq!(
        s.get_file_revision_by_id(7).unwrap_err(),
        StateError::NoFileRevisionForID(7)
    );
    let (id, fr) = s.get_file_revision_from_mark(Mark(1)).unwrap();
    assert_eq!((id, fr.path.clone()), (0, b"foo".to_vec()));
    assert_eq!(
        s.get_file_revision_from_mark(Mark(2)).unwrap_err(),
        StateError::NoFileRevisionForMark(2)
    );
}

#[test]
fn patchset_indices() {
    let mut s = Manager::new();
    s.add_patchset(Mark(5), b"main", 100, &[2, 1]);
    s.add_patchset(Mark(6), b"main", 200, &[1, 3]);
    assert_eq!(s.get_last_patchset_mark_on_branch(b"main"), Some(Mark(6)));
    assert_eq!(s.get_last_patchset_mark_on_branch(b"other"), None);
    assert_eq!(s.get_mark_from_patchset_content(100, &[1, 2]), Some(Mark(5)));
    assert_eq!(s.get_mark_from_patchset_content(100, &[1, 2, 2]), Some(Mark(5)));
    assert_eq!(s.get_mark_from_patchset_content(100, &[1]), None);
    assert_eq!(s.get_mark_from_patchset_content(101, &[1, 2]), None);
    assert_eq!(s.get_patchset_from_mark(Mark(6)).unwrap().time, 200);
    assert_eq!(
        s.get_patchset_from_mark(Mark(9)).unwrap_err(),
        StateError::NoPatchSetForMark(9)
    );
    let (m, p) = s.get_last_patchset_for_file_revision(1).unwrap();
    assert_eq!((m, p.time), (Mark(6), 200));
    assert_eq!(s.get_last_patchset_for_file_revision(2).unwrap().0, Mark(5));
    assert!(s.get_last_patchset_for_file_revision(4).is_none());
    s.add_branch_to_patchset_mark(Mark(5), b"other");
    assert_eq!(s.get_last_patchset_mark_on_branch(b"other"), Some(Mark(5)));
}

#[test]
fn tags_and_raw_marks() {
    let mut s = Manager::new();
    assert_eq!(s.get_file_revisions_for_tag(b"T").unwrap_err(), StateError::NoTag);
    s.add_tag(b"T", 3);
    s.add_tag(b"U", 1);
    s.add_tag(b"T", 4);
    assert_eq!(s.get_file_revisions_for_tag(b"T").unwrap(), vec![3, 4]);
    assert_eq!(s.get_tags(), vec![b"T".to_vec(), b"U".to_vec()]);
    assert_eq!(s.get_mark_for_tag(b"T"), None);
    s.add_tag_mark(b"T", Mark(8));
    s.add_tag_mark(b"T", Mark(9));
    assert_eq!(s.get_mark_for_tag(b"T"), Some(Mark(9)));
    s.set_raw_marks(b":1 abc\n");
    assert_eq!(s.get_raw_marks(), b":1 abc\n".to_vec());
}

#[test]
fn patchset_shared_across_branches() {
    let mut s = Manager::new();
    let foo = add(&mut s, "foo", "1.1", Some(1), 100);
    let bar = add(&mut s, "bar", "1.1", None, 101);
    let mut d = Detector::new(120);
    d.add_file_commit(b"foo".to_vec(), Some(foo), b"adam".to_vec(), b"m".to_vec(), 100);
    d.add_file_commit(b"bar".to_vec(), Some(bar), b"adam".to_vec(), b"m".to_vec(), 101);
    let ps = d.into_patchset_iter();
    assert_eq!(ps.len(), 1);

    // First branch: the commit is built and sent.
    let (commit, ids) = match s.plan_patchset(b"main", &ps[0], None).unwrap() {
        PatchsetStep::Send(c, ids) => (c, ids),
        PatchsetStep::Reuse(_) => panic!("nothing was sent yet"),
    };
    assert_eq!(commit.branch_ref, b"refs/heads/main".to_vec());
    assert_eq!(commit.committer.email, b"adam".to_vec());
    assert_eq!(commit.committer.when, 101);
    assert_eq!(commit.commands.len(), 2);
    assert_eq!(ids, vec![foo, bar]);
    s.add_patchset(Mark(3), b"main", ps[0].time, &ids);

    // Second branch: the same content reuses the commit.
    match s.plan_patchset(b"branch", &ps[0], None).unwrap() {
        PatchsetStep::Reuse(m) => assert_eq!(m, Mark(3)),
        PatchsetStep::Send(..) => panic!("the content was sent before"),
    }
    s.add_branch_to_patchset_mark(Mark(3), b"branch");
    assert_eq!(s.get_last_patchset_mark_on_branch(b"branch"), Some(Mark(3)));
}

#[test]
fn unknown_file_revision_fails_planning() {
    let s = Manager::new();
    let mut d = Detector::new(120);
    d.add_file_commit(b"foo".to_vec(), Some(4), b"a".to_vec(), b"m".to_vec(), 1);
    let ps = d.into_patchset_iter();
    assert!(matches!(
        s.plan_patchset(b"main", &ps[0], None),
        Err(StateError::NoFileRevisionForID(4))
    ));
}

#[test]
fn tag_commits() {
    let mut s = Manager::new();
    let who = Identity::new(None, b"tagger@example.com".to_vec(), 0);
    assert!(matches!(s.plan_tag(b"T", &who), Ok(TagStep::Empty)));
    let foo = add(&mut s, "foo", "1.1", Some(1), 100);
    let bar = add(&mut s, "bar", "1.2", None, 150);
    s.add_patchset(Mark(3), b"main", 120, &[foo]);
    s.add_tag(b"T", foo);
    s.add_tag(b"T", bar);
    let (commit, ids, time) = match s.plan_tag(b"T", &who).unwrap() {
        TagStep::Send { commit, ids, time } => (commit, ids, time),
        _ => panic!("a new tag is sent"),
    };
    assert_eq!(commit.branch_ref, b"refs/heads/tags/T".to_vec());
    assert_eq!(commit.message, b"Fake commit for tag T.".to_vec());
    assert_eq!(commit.from, Some(Mark(3)));
    assert_eq!(commit.commands.len(), 3);
    assert_eq!((ids.clone(), time), (vec![foo, bar], 150));
    s.add_patchset(Mark(4), b"T", time, &ids);
    s.add_tag_mark(b"T", Mark(4));
    assert!(matches!(s.plan_tag(b"T", &who), Ok(TagStep::Unchanged)));
    let baz = add(&mut s, "baz", "1.1", Some(2), 160);
    s.add_tag(b"T", baz);
    match s.plan_tag(b"T", &who).unwrap() {
        TagStep::Send { commit, .. } => assert_eq!(commit.from, Some(Mark(4))),
        _ => panic!("a changed tag is sent again"),
    }
}

#[test]
fn frame_round_trip() {
    let f = Frame {
        file_revisions: b"abc".to_vec(),
        patchsets: vec![],
        tags: vec![0, 1, 2, 255],
        raw_marks: b":1 0123\n".to_vec(),
    };
    let bytes = f.serialize();
    assert_eq!(bytes[0], 1);
    assert_eq!(&bytes[1..9], &[3, 0, 0, 0, 0, 0, 0, 0]);
    assert_eq!(bytes.len(), 1 + 4 * 8 + 3 + 4 + 8);
    assert_eq!(Frame::deserialize(&bytes), Ok(f));
}

#[test]
fn frame_errors() {
    assert_eq!(Frame::deserialize(b""), Err(FrameError::Truncated));
    assert_eq!(
        Frame::deserialize(&[7, 0, 0, 0, 0]),
        Err(FrameError::UnknownSerialisationVersion(7))
    );
    assert_eq!(Frame::deserialize(&[1, 5, 0, 0, 0, 0, 0, 0, 0, 1]), Err(FrameError::Truncated));
    assert_eq!(Frame::deserialize(&[1, 5, 0, 0]), Err(FrameError::Truncated));
    let mut bytes = Frame {
        file_revisions: vec![],
        patchsets: vec![],
        tags: vec![],
        raw_marks: vec![],
    }
    .serialize();
    bytes.push(0);
    assert_eq!(Frame::deserialize(&bytes), Err(FrameError::TrailingData));
}

#[test]
fn second_run_sends_nothing() {
    // First run: one file revision, one patchset, sent as commit 2.
    let mut s = Manager::new();
    let id = add(&mut s, "foo", "1.1", Some(1), 100);
    let mut d = Detector::new(120);
    d.add_file_commit(b"foo".to_vec(), Some(id), b"adam".to_vec(), b"msg".to_vec(), 100);
    let ps = d.into_patchset_iter();
    let ids = match s.plan_patchset(b"main", &ps[0], None).unwrap() {
        PatchsetStep::Send(_, ids) => ids,
        PatchsetStep::Reuse(_) => panic!("first run sends"),
    };
    s.add_patchset(Mark(2), b"main", ps[0].time, &ids);
    s.set_raw_marks(b":1 aaaa\n:2 bbbb\n");

    // The raw marks survive the state file untouched.
    let frame = Frame {
        file_revisions: vec![9],
        patchsets: vec![8],
        tags: vec![],
        raw_marks: s.get_raw_marks(),
    };
    let back = Frame::deserialize(&frame.serialize()).unwrap();
    assert_eq!(back.raw_marks, b":1 aaaa\n:2 bbbb\n".to_vec());

    // Second run: the revision is known, and its patchset is found by content.
    let before = s.file_revisions.len();
    assert_eq!(add(&mut s, "foo", "1.1", Some(1), 100), id);
    assert_eq!(s.file_revisions.len(), before);
    assert!(matches!(
        s.plan_patchset(b"main", &ps[0], Some(Mark(2))),
        Ok(PatchsetStep::Reuse(Mark(2)))
    ));
}

#[test]
fn content_index_takes_the_latest() {
    let mut s = Manager::new();
    s.add_patchset(Mark(5), b"main", 100, &[1, 2]);
    s.add_patchset(Mark(7), b"tags/T", 100, &[2, 1]);
    assert_eq!(s.get_mark_from_patchset_content(100, &[1, 2]), Some(Mark(7)));
    assert_eq!(s.get_patchset_ids_for_file_revision(1), vec![Mark(5), Mark(7)]);
    assert!(s.get_patchset_ids_for_file_revision(3).is_empty());
}

#[test]
fn tag_ids_are_an_ascending_set() {
    let mut s = Manager::new();
    s.add_tag(b"T", 9);
    s.add_tag(b"T", 2);
    s.add_tag(b"T", 9);
    s.add_tag(b"T", 5);
    assert_eq!(s.get_file_revisions_for_tag(b"T").unwrap(), vec![2, 5, 9]);
}

#[test]
fn send_branch_and_tag() {
    let mut s = Manager::new();
    let foo = add(&mut s, "foo", "1.1", Some(1), 100);
    let mut d = Detector::new(120);
    d.add_file_commit(b"foo".to_vec(), Some(foo), b"adam".to_vec(), b"m".to_vec(), 100);
    let ps = d.into_patchset_iter();
    let mut w = Writer::new(Some(Mark(1)), b"marks");
    w.take_output();
    assert_eq!(send_branch(&mut s, &mut w, b"main", &ps), Ok(Some(Mark(2))));
    let out = String::from_utf8(w.take_output()).unwrap();
    assert!(out.starts_with("commit refs/heads/main\nmark :2\n"));
    assert!(out.ends_with("reset refs/heads/main\nfrom :2\n"));
    // The same patchsets on another branch reuse the commit.
    assert_eq!(send_branch(&mut s, &mut w, b"other", &ps), Ok(Some(Mark(2))));
    assert_eq!(w.next_mark(), 3);
    // A tag becomes a commit, then nothing more while it is unchanged.
    s.add_tag(b"T", foo);
    let who = Identity::new(None, b"t@example.com".to_vec(), 0);
    assert_eq!(send_tag(&mut s, &mut w, b"T", &who), Ok(Some(Mark(3))));
    assert_eq!(s.get_mark_for_tag(b"T"), Some(Mark(3)));
    assert_eq!(send_tag(&mut s, &mut w, b"T", &who), Ok(None));
}
