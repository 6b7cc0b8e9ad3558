use git_cvs_fast_import::num::{Num, NumError};
use std::str::FromStr;

fn num(s: &str) -> Num {
    Num::from_str(s).unwrap()
}

#[test]
fn test_num_contains() {
    // Contained because it's on this specific branch.
    assert!(num("1.1.2").contains(&num("1.1.2.1")).unwrap());
    assert!(num("1.1.2").contains(&num("1.1.2.2")).unwrap());

    // Contained because it's an ancestor of this branch.
    assert!(num("1.1.2").contains(&num("1.1")).unwrap());

    // Not contained because it's on a different branch.
    assert!(!num("1.1.2").contains(&num("1.1.3.1")).unwrap());

    // Not contained because it's only on a descendant branch.
    assert!(!num("1.1.2").contains(&num("1.1.2.1.1.1")).unwrap());

    // Not contained because it's after the branch was made.
    assert!(!num("1.1.2").contains(&num("1.2")).unwrap());
}

#[test]
fn test_num_parse() {
    assert_eq!(num("1.1"), Num::Commit(vec![1, 1]));
    assert_eq!(num("1.2.3.4"), Num::Commit(vec![1, 2, 3, 4]));
    assert_eq!(num("1.2.3"), Num::Branch(vec![1, 2, 3]));
    assert_eq!(num("1.2.0.3"), Num::Branch(vec![1, 2, 3]));

    // Now the failures.
    for input in ["", "x", "1.", "1.x"] {
        assert!(Num::from_str(input).is_err());
    }
}

#[test]
fn contains_rejects_wrong_shapes() {
    assert_eq!(
        num("1.1").contains(&num("1.1")),
        Err(NumError::InvalidTypesForContains)
    );
    assert_eq!(
        num("1.1.2").contains(&num("1.1.2")),
        Err(NumError::InvalidTypesForContains)
    );
}

#[test]
fn contains_deeper_branches() {
    // A commit on the parent branch before the branch point.
    assert!(num("1.2.4.3.2").contains(&num("1.2.4.2")).unwrap());
    assert!(num("1.2.4.3.2").contains(&num("1.2.4.3")).unwrap());
    assert!(!num("1.2.4.3.2").contains(&num("1.2.4.4")).unwrap());
    assert!(num("1.2.4.3.2").contains(&num("1.2.4.3.2.7")).unwrap());
    assert!(!num("1.2.4.3.2").contains(&num("1.2.4.3.4.1")).unwrap());
    assert!(num("1.2.4.3.2").contains(&num("1.1")).unwrap());
}

#[test]
fn parse_rejects_bad_components() {
    assert_eq!(Num::parse(b"1..2"), Err(NumError::MalformedRevision));
    assert_eq!(Num::parse(b"+1.2"), Err(NumError::MalformedRevision));
    assert_eq!(Num::parse(b"1.2 "), Err(NumError::MalformedRevision));
    // Overflowing components are rejected.
    assert_eq!(
        Num::parse(b"1.18446744073709551616"),
        Err(NumError::MalformedRevision)
    );
    assert_eq!(
        Num::parse(b"1.18446744073709551615"),
        Ok(Num::Commit(vec![1, 18446744073709551615]))
    );
    // Leading zeros and zero components.
    assert_eq!(Num::parse(b"01.002"), Ok(Num::Commit(vec![1, 2])));
    assert_eq!(Num::parse(b"0.0.1"), Ok(Num::Branch(vec![1])));
    assert_eq!(Num::parse(b"0"), Err(NumError::MalformedRevision));
    assert_eq!(Num::parse(b"0.0"), Err(NumError::MalformedRevision));
}

#[test]
fn to_branch_and_text() {
    assert_eq!(num("1.2.3.4").to_branch(), Num::Branch(vec![1, 2, 3]));
    assert_eq!(num("1.2.3").to_branch(), Num::Branch(vec![1, 2, 3]));
    assert_eq!(num("1.2.3.4").to_bytes(), b"1.2.3.4".to_vec());
    assert_eq!(num("1.2.0.30").to_bytes(), b"1.2.30".to_vec());
    assert_eq!(Num::Commit(vec![10, 205]).to_bytes(), b"10.205".to_vec());
}

#[test]
fn text_round_trip() {
    for text in ["1.1", "1.2.3", "10.20.30.40", "7", "18446744073709551615.1"] {
        let n = num(text);
        assert_eq!(Num::parse(&n.to_bytes()), Ok(n.clone()));
        assert_eq!(n.to_bytes(), text.as_bytes().to_vec());
    }
}
