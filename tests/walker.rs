use git_cvs_fast_import::detector::Detector;
use git_cvs_fast_import::fast_import::{Mark, Writer};
use git_cvs_fast_import::state::Manager;
use git_cvs_fast_import::walker::observe_revision;
use git_cvs_fast_import::num::Num;
use git_cvs_fast_import::rcs::parse;
use git_cvs_fast_import::walker::{
    branches_containing, is_dead, symbol_maps, tags_for, walk, WalkError,
};
use std::str::FromStr;

const FILE: &[u8] = b"head 1.3;
access;
symbols REL:1.2 feature:1.2.0.2;
locks; strict;

1.3 date 2021.08.11.19.08.27; author adam; state Exp; branches; next 1.2;
1.2 date 2021.08.11.19.07.50; author adam; state Exp; branches 1.2.2.1; next 1.1;
1.1 date 2021.08.11.19.07.00; author adam; state Exp; branches; next ;
1.2.2.1 date 2021.08.12.10.00.00; author eve; state Exp; branches; next ;
desc @@
1.3 log @three@ text @a
b
c
@
1.2 log @two@ text @d3 1
@
1.1 log @one@ text @d2 1
@
1.2.2.1 log @branch@ text @a2 1
x
@
";

fn num(s: &str) -> Num {
    Num::from_str(s).unwrap()
}

#[test]
fn walks_trunk_and_branches() {
    let file = parse(FILE).unwrap();
    let revs = walk(&file).unwrap();
    let order: Vec<Vec<u8>> = revs.iter().map(|(n, _)| n.to_bytes()).collect();
    assert_eq!(
        order,
        vec![
            b"1.3".to_vec(),
            b"1.2".to_vec(),
            b"1.2.2.1".to_vec(),
            b"1.1".to_vec()
        ]
    );
    assert_eq!(revs[0].1, b"a\nb\nc\n".to_vec());
    assert_eq!(revs[1].1, b"a\nb\n".to_vec());
    assert_eq!(revs[2].1, b"a\nb\nx\n".to_vec());
    assert_eq!(revs[3].1, b"a\n".to_vec());
}

#[test]
fn symbols_and_membership() {
    let file = parse(FILE).unwrap();
    let maps = symbol_maps(&file, b"main");
    let names: Vec<Vec<u8>> = maps.branches.iter().map(|(n, _)| n.clone()).collect();
    assert_eq!(names, vec![b"feature".to_vec(), b"main".to_vec()]);
    assert_eq!(
        branches_containing(&maps.branches, &num("1.2")),
        vec![b"feature".to_vec(), b"main".to_vec()]
    );
    assert_eq!(
        branches_containing(&maps.branches, &num("1.3")),
        vec![b"main".to_vec()]
    );
    assert_eq!(
        branches_containing(&maps.branches, &num("1.2.2.1")),
        vec![b"feature".to_vec()]
    );
    assert_eq!(tags_for(&maps.tags, &num("1.2")), vec![b"REL".to_vec()]);
    assert!(tags_for(&maps.tags, &num("1.3")).is_empty());
}

#[test]
fn walk_errors() {
    let missing = b"head 1.2;\naccess;\nsymbols;\nlocks;\ndesc @@\n";
    assert!(matches!(
        walk(&parse(missing).unwrap()),
        Err(WalkError::MissingRevision(_))
    ));
    let headless = b"head ;\naccess;\nsymbols;\nlocks;\ndesc @@\n";
    assert!(matches!(
        walk(&parse(headless).unwrap()),
        Err(WalkError::MissingHead)
    ));
    let cyclic = b"head 1.1;\naccess;\nsymbols;\nlocks;\n1.1 date 2021.1.1.0.0.0; author a; state Exp; branches; next 1.1;\ndesc @@\n1.1 log @@ text @x\n@\n";
    assert!(matches!(walk(&parse(cyclic).unwrap()), Err(WalkError::Cycle)));
}

#[test]
fn dead_revisions() {
    let input = b"head 1.2;\naccess;\nsymbols;\nlocks;\n1.2 date 2021.1.1.0.0.0; author a; state dead; branches; next 1.1;\n1.1 date 2021.1.1.0.0.0; author a; state Exp; branches; next ;\ndesc @@\n";
    let file = parse(input).unwrap();
    assert!(is_dead(&file.delta[0].1));
    assert!(!is_dead(&file.delta[1].1));
}

#[test]
fn observe_revisions() {
    let file = parse(FILE).unwrap();
    let maps = symbol_maps(&file, b"main");
    let mut state = Manager::new();
    let mut writer = Writer::new(None, b"m");
    writer.take_output();
    let mut detectors: Vec<(Vec<u8>, Detector)> = Vec::new();
    let revs = walk(&file).unwrap();
    let mut ids = Vec::new();
    for (rev, content) in &revs {
        let (delta, text) = file.revision(rev).unwrap();
        ids.push(observe_revision(
            &mut state, &mut writer, &mut detectors, 120, b"f", rev, content, delta, text, &maps, 10,
        ));
    }
    assert_eq!(ids, vec![Some(0), Some(1), Some(2), Some(3)]);
    assert_eq!(state.file_revisions[0].mark, Some(Mark(1)));
    assert_eq!(writer.next_mark(), 5);
    assert!(String::from_utf8(writer.take_output()).unwrap().starts_with("blob\nmark :1\ndata 6\na\nb\nc\n\n"));
    let names: Vec<Vec<u8>> = detectors.iter().map(|(n, _)| n.clone()).collect();
    assert_eq!(names, vec![b"main".to_vec(), b"feature".to_vec()]);
    assert_eq!(detectors[0].1.len(), 3);
    assert_eq!(detectors[1].1.len(), 3);
    assert_eq!(state.get_file_revisions_for_tag(b"REL").unwrap(), vec![1]);
    // A second pass knows every revision and changes nothing.
    let (delta, text) = file.revision(&revs[0].0).unwrap();
    assert_eq!(
        observe_revision(&mut state, &mut writer, &mut detectors, 120, b"f", &revs[0].0, &revs[0].1, delta, text, &maps, 10),
        None
    );
    assert_eq!(detectors[0].1.len(), 3);
}
