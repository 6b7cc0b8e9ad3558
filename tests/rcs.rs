use git_cvs_fast_import::num::Num;
use git_cvs_fast_import::rcs::{
    admin, date, delta, delta_text, desc, integrity_string, is_idchar, is_intchar, parse, string,
    ParseErrorKind, RcsDate,
};
use std::str::FromStr;

const FILE: &[u8] = b"head\t1.4;
access;
symbols
\tRELEASE_1:1.3
\tfeature:1.3.0.2;
locks; strict;
comment\t@# @;


1.4
date\t2021.08.11.19.08.27;\tauthor adam;\tstate Exp;
branches;
next\t1.3;

1.3
date\t2021.08.11.19.07.50;\tauthor adam;\tstate Exp;
branches
\t1.3.2.1;
next\t1.2;

1.2
date\t2021.08.11.19.07.00;\tauthor adam;\tstate dead;
branches;
next\t1.1;

1.1
date\t2021.08.11.19.06.00;\tauthor adam;\tstate Exp;
branches;
next\t;

1.3.2.1
date\t2021.08.12.10.00.00;\tauthor eve;\tstate Exp;
branches;
next\t;


desc
@@


1.4
log
@fourth@
text
@one
two
three
four
@


1.3
log
@third@
text
@d4 1
@


1.2
log
@second@
text
@d3 1
@


1.1
log
@first@@home
@
text
@d2 1
@


1.3.2.1
log
@on a branch@
text
@a3 1
branch line
@
";

fn num(s: &str) -> Num {
    Num::from_str(s).unwrap()
}

fn date_of(y: i32, mo: u32, d: u32, h: u32, mi: u32, s: u32) -> RcsDate {
    RcsDate {
        year: y,
        month: mo,
        day: d,
        hour: h,
        minute: mi,
        second: s,
        millis: 0,
    }
}

#[test]
fn test_admin() {
    let input = b"head\t1.1;\naccess;\nsymbols;\nlocks; strict;\ncomment\t@# @;\n\n\n1.1\n";
    let (have, _) = admin(input, 0).unwrap();
    assert_eq!(have.head.unwrap().to_bytes(), b"1.1".to_vec());
    assert!(have.branch.is_none());
    assert_eq!(have.access.len(), 0);
    assert_eq!(have.symbols.len(), 0);
    assert_eq!(have.locks.len(), 0);
    assert!(have.strict);
    assert!(have.integrity.is_none());
    assert_eq!(have.comment.unwrap(), b"# ".to_vec());
    assert!(have.expand.is_none());
}

#[test]
fn test_delta() {
    let input = b"1.2\ndate\t2021.08.20.17.34.26;\tauthor adam;\tstate Exp;\nbranches\n\t1.2.2.1\n\t1.2.4.1;\nnext\t1.1;\n";
    let (n, have, _) = delta(input, 0).unwrap();
    assert_eq!(n.to_bytes(), b"1.2".to_vec());
    assert_eq!(have.date, date_of(2021, 8, 20, 17, 34, 26));
    assert_eq!(have.author, b"adam".to_vec());
    assert_eq!(have.state.unwrap(), b"Exp".to_vec());
    assert_eq!(have.branches, vec![num("1.2.2.1"), num("1.2.4.1")]);
    assert_eq!(have.next.unwrap().to_bytes(), b"1.1".to_vec());
    assert!(have.commit_id.is_none());
}

#[test]
fn test_delta_text() {
    let input = b"1.1\nlog\n@Initial revision\n@\ntext\n@a\nb@@c\n@\n";
    let (n, have, _) = delta_text(input, 0).unwrap();
    assert_eq!(n.to_bytes(), b"1.1".to_vec());
    assert_eq!(have.log, b"Initial revision\n".to_vec());
    assert_eq!(have.text, b"a\nb@c\n".to_vec());

    let (n, have, _) = delta_text(b"1.2 log @@ text @@", 0).unwrap();
    assert_eq!(n.to_bytes(), b"1.2".to_vec());
    assert_eq!(have.log, b"".to_vec());
    assert_eq!(have.text, b"".to_vec());
}

#[test]
fn test_desc() {
    assert_eq!(desc(b"desc @@", 0).unwrap().0, b"".to_vec());
    assert_eq!(desc(b"desc @foo@@bar@", 0).unwrap().0, b"foo@bar".to_vec());
    assert_eq!(desc(b"desc   @foo@@bar@", 0).unwrap().0, b"foo@bar".to_vec());
    assert!(desc(b"desc@foo@", 0).is_err());
}

#[test]
fn test_file() {
    let have = parse(FILE).unwrap();
    assert_eq!(have.admin.head.clone().unwrap().to_bytes(), b"1.4".to_vec());
    assert_eq!(have.delta.len(), 5);
    let (_, d) = have.delta.iter().find(|(n, _)| *n == num("1.4")).unwrap();
    assert_eq!(d.date, date_of(2021, 8, 11, 19, 8, 27));
    assert_eq!(have.desc, b"".to_vec());
    assert_eq!(have.delta_text.len(), 5);
    let (_, t) = have
        .delta_text
        .iter()
        .find(|(n, _)| *n == num("1.1"))
        .unwrap();
    assert_eq!(t.text, b"d2 1\n".to_vec());
    assert_eq!(t.log, b"first@home\n".to_vec());
    assert_eq!(have.admin.symbols.len(), 2);
    assert_eq!(have.admin.symbols[1].1, num("1.3.2"));
    assert!(have.head_delta().is_some());
    assert_eq!(have.head_delta_text().unwrap().1.log, b"fourth".to_vec());
    assert!(have.revision(&num("1.3.2.1")).is_some());
    assert!(have.revision(&num("1.9")).is_none());
}

#[test]
fn file_parse_is_repeatable() {
    let a = parse(FILE).unwrap();
    let b = parse(FILE).unwrap();
    assert_eq!(format!("{:?}", a), format!("{:?}", b));
}

#[test]
fn file_parse_errors() {
    let err = parse(b"head 1.1;\naccess;\nsymbols;\nlocks;\n\ndesc @@\n junk").unwrap_err();
    assert_eq!(err.kind, ParseErrorKind::Syntax);
    assert!(parse(b"").is_err());
    // The mandatory admin fields.
    assert!(parse(b"head 1.1;\ndesc @@\n").is_err());
}

#[test]
fn test() {
    assert_eq!(integrity_string(b"@@", 0).unwrap().0, b"".to_vec());
    assert_eq!(integrity_string(b"@foo@", 0).unwrap().0, b"foo".to_vec());
    assert_eq!(
        integrity_string(b"@foo\x0cbar@", 0).unwrap().0,
        b"foo\x0cbar".to_vec()
    );
    assert_eq!(string(b"@foo bar@", 0).unwrap().0, b"foo bar".to_vec());
    assert_eq!(string(b"@foo@@bar@", 0).unwrap().0, b"foo@bar".to_vec());
    assert_eq!(string(b"@foo@@bar@ rest", 0).unwrap().1, 10);
    assert!(string(b"@unterminated", 0).is_none());
}

#[test]
fn test_date() {
    // Straight up parse errors.
    assert!(date(b"", 0).is_err());
    assert!(date(b"not.a.digit.oh.my.word", 0).is_err());
    assert!(date(b".....", 0).is_err());

    // Range errors.
    for (input, kind) in [
        ("2021.0.1.0.0.0", ParseErrorKind::InvalidDate),
        ("2021.13.1.0.0.0", ParseErrorKind::InvalidDate),
        ("2021.1.0.0.0.0", ParseErrorKind::InvalidDate),
        ("2021.1.32.0.0.0", ParseErrorKind::InvalidDate),
        ("2021.1.1.24.0.0", ParseErrorKind::InvalidTime),
        ("2021.1.1.0.60.0", ParseErrorKind::InvalidTime),
        ("2021.1.1.0.0.61", ParseErrorKind::InvalidTime),
        ("2021.2.29.0.0.0", ParseErrorKind::InvalidDate),
    ] {
        assert_eq!(date(input.as_bytes(), 0).unwrap_err().kind, kind);
    }

    // Actually valid inputs.
    assert_eq!(
        date(b"2021.08.11.19.08.27", 0).unwrap().0,
        date_of(2021, 8, 11, 19, 8, 27)
    );
    assert_eq!(
        date(b"98.08.11.19.08.27", 0).unwrap().0,
        date_of(1998, 8, 11, 19, 8, 27)
    );
    // A leap second is carried as milliseconds.
    let leap = date(b"2016.12.31.23.59.60", 0).unwrap().0;
    assert_eq!((leap.second, leap.millis), (59, 1000));
    assert_eq!(date(b"2020.2.29.0.0.0", 0).unwrap().0.day, 29);
}

#[test]
fn char_classes() {
    assert!(is_idchar(b'a'));
    assert!(!is_idchar(b'.'));
    assert!(!is_idchar(b'@'));
    assert!(!is_idchar(b'$'));
    assert!(!is_idchar(b'\n'));
    assert!(is_intchar(0x0c));
    assert!(is_intchar(b'.'));
    assert!(!is_intchar(b'@'));
}
