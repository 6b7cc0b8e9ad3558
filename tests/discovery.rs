use git_cvs_fast_import::discovery::{munge_raw_path, BranchFilter};

fn munge(input: &str, prefix: &str) -> String {
    String::from_utf8(munge_raw_path(input.as_bytes(), prefix.as_bytes())).unwrap()
}

#[test]
fn test_munge_raw_path() {
    // Basic relative and absolute cases with ,v suffixes.
    assert_eq!(munge("foo", ""), "foo");
    assert_eq!(munge("foo,v", ""), "foo");
    assert_eq!(munge("foo/bar", ""), "foo/bar");
    assert_eq!(munge("/foo", ""), "/foo");
    assert_eq!(munge("/foo,v", ""), "/foo");
    assert_eq!(munge("/foo/bar,v", ""), "/foo/bar");
    assert_eq!(munge("/foo/Attic/bar", ""), "/foo/bar");

    // Basic Attic cases.
    assert_eq!(munge("foo/Attic/bar", ""), "foo/bar");
    assert_eq!(munge("foo/Attic/bar,v", ""), "foo/bar");
    assert_eq!(munge("/foo/Attic/bar", ""), "/foo/bar");
    assert_eq!(munge("/foo/Attic/bar,v", ""), "/foo/bar");

    // Non-standard Attic cases where it shouldn't be stripped.
    assert_eq!(munge("Attic", ""), "Attic");
    assert_eq!(munge("Attic,v", ""), "Attic");
    assert_eq!(munge("foo/Attic", ""), "foo/Attic");
    assert_eq!(munge("/foo/Attic", ""), "/foo/Attic");
    assert_eq!(
        munge("Attic/Attic/Attic/foo/bar,v", ""),
        "Attic/Attic/Attic/foo/bar"
    );
    assert_eq!(munge("/Attic/Attic/foo,v", ""), "/Attic/foo");

    // Prefix stripping.
    assert_eq!(munge("/foo/bar/Attic/quux,v", "/foo/bar"), "quux");
    assert_eq!(munge("/foo/bar/quux,v", "/bar"), "/foo/bar/quux");
}

#[test]
fn munge_more_prefixes() {
    assert_eq!(munge("/root/x/y,v", "/root/"), "x/y");
    assert_eq!(munge("/rootx/y,v", "/root"), "/rootx/y");
    assert_eq!(munge("Attic/bar,v", ""), "bar");
}

#[test]
fn test_branch_filter() {
    // Empty branch filters should always match.
    let filter = BranchFilter::new(&Vec::<Vec<u8>>::new());
    assert!(filter.contains(b""));
    assert!(filter.contains(b"foo"));

    // Otherwise, we should filter based on the allowed branches.
    let filter = BranchFilter::new(&vec![b"foo".to_vec(), b"bar".to_vec()]);
    assert!(filter.contains(b"foo"));
    assert!(filter.contains(b"bar"));
    assert!(!filter.contains(b""));
    assert!(!filter.contains(b"quux"));
}
