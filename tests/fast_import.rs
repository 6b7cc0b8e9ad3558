use git_cvs_fast_import::fast_import::{
    get_last_mark, Blob, CommitBuilder, CommitError, FileCommand, Identity, Mark, Mode, Tag, Writer,
};

#[test]
fn test_get_last_mark() {
    assert_eq!(get_last_mark(b"").unwrap(), None);
    assert_eq!(get_last_mark(b"\n").unwrap(), None);
    assert_eq!(
        get_last_mark(b":25 0123456789012345678901234567890123456789").unwrap(),
        Some(Mark(25))
    );
    assert_eq!(
        get_last_mark(b":25 0123456789012345678901234567890123456789\n\n").unwrap(),
        Some(Mark(25))
    );

    assert!(get_last_mark(b"not a mark").is_err());
    assert!(get_last_mark(b":xx xx").is_err());
    assert!(get_last_mark(b":25").is_err());
    assert!(get_last_mark(b":25 \n").is_err());
    assert!(get_last_mark(b"25 xx").is_err());
}

#[test]
fn last_mark_is_that_of_the_last_line() {
    assert_eq!(
        get_last_mark(b":1 aa\n:2 bb\n:30 cc\n").unwrap(),
        Some(Mark(30))
    );
}

#[test]
fn writer_header_and_marks() {
    let mut w = Writer::new(Some(Mark(41)), b"marks");
    assert_eq!(w.next_mark(), 42);
    assert_eq!(
        w.take_output(),
        b"feature done\nfeature date-format=raw\nfeature import-marks-if-exists=marks\nfeature export-marks=marks\n".to_vec()
    );
    let m = w.blob(&Blob::new(b"hi"));
    assert_eq!(m, Mark(42));
    assert_eq!(w.next_mark(), 43);
    w.checkpoint();
    w.progress(b"half way");
    w.reset(b"refs/heads/main", Some(Mark(7)));
    assert_eq!(
        w.finish(),
        b"blob\nmark :42\ndata 2\nhi\ncheckpoint\nprogress half way\nreset refs/heads/main\nfrom :7\ndone\n".to_vec()
    );
    assert_eq!(Writer::new(None, b"m").next_mark(), 1);
}

#[test]
fn commit_builder_and_wire_format() {
    let mut b = CommitBuilder::new(b"refs/heads/main".to_vec());
    assert!(matches!(
        CommitBuilder::new(b"x".to_vec()).build(),
        Err(CommitError::MissingCommitter)
    ));
    let who = Identity::new(Some(b"A U Thor".to_vec()), b"a@example.com".to_vec(), 1000);
    assert_eq!(who.to_bytes(), b"A U Thor <a@example.com> 1000 +0000".to_vec());
    b.committer(who.clone());
    assert!(matches!(
        b.clone().build(),
        Err(CommitError::MissingCommitMessage)
    ));
    b.author(Identity::new(None, b"b@example.com".to_vec(), 5));
    b.message(b"msg".to_vec());
    b.from(Mark(3));
    b.merge(Mark(4));
    b.add_file_command(FileCommand::Modify {
        mode: Mode::Executable,
        mark: Mark(2),
        path: b"bin/run".to_vec(),
    });
    b.add_file_command(FileCommand::Delete {
        path: b"old".to_vec(),
    });
    b.add_file_command(FileCommand::DeleteAll);
    let commit = b.build().unwrap();
    let mut w = Writer::new(None, b"m");
    w.take_output();
    assert_eq!(w.commit(&commit), Mark(1));
    assert_eq!(
        w.take_output(),
        b"commit refs/heads/main\nmark :1\nauthor <b@example.com> 5 +0000\ncommitter A U Thor <a@example.com> 1000 +0000\ndata 3\nmsg\nfrom :3\nmerge :4\nM 100755 :2 bin/run\nD old\ndeleteall\n".to_vec()
    );
    assert_eq!(Mark(12).to_bytes(), b":12".to_vec());
}

#[test]
fn annotated_tag_wire_format() {
    let mut w = Writer::new(Some(Mark(4)), b"m");
    w.take_output();
    let who = Identity::new(Some(b"T".to_vec()), b"t@example.com".to_vec(), 9);
    let m = w.tag(&Tag::new(b"v1".to_vec(), Mark(3), who, b"release".to_vec()));
    assert_eq!(m, Mark(5));
    assert_eq!(
        w.take_output(),
        b"tag v1\nmark :5\nfrom :3\ntagger T <t@example.com> 9 +0000\ndata 7\nrelease\n".to_vec()
    );
}
