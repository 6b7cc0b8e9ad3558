//! Paths of `,v` files and the branch whitelist.
use vstd::prelude::*;
use crate::bytes::{append_bytes, ends_with, has_prefix, slice_copy, starts_with};
use crate::detector::bytes_eq;
use crate::ed::lines_view;
use crate::bytes::copy_bytes;

verus! {

/// `input` without the directory `prefix`, where `prefix` is one (compared
/// by whole components); else `input` itself.
pub open spec fn strip_prefix_spec(input: Seq<u8>, prefix: Seq<u8>) -> Seq<u8> {
    if prefix.len() == 0 || !starts_with(input, prefix) {
        input
    } else if prefix.last() == 47u8 {
        input.subrange(prefix.len() as int, input.len() as int)
    } else if input.len() == prefix.len() {
        Seq::empty()
    } else if input[prefix.len() as int] == 47u8 {
        input.subrange(prefix.len() as int + 1, input.len() as int)
    } else {
        input
    }
}

/// Index of the last `/` before `end`, or -1.
pub open spec fn last_slash(s: Seq<u8>, end: int) -> int
    decreases end,
{
    if end <= 0 {
        -1
    } else if s[end - 1] == 47u8 {
        end - 1
    } else {
        last_slash(s, end - 1)
    }
}

pub open spec fn strip_comma_v(name: Seq<u8>) -> Seq<u8> {
    if ends_with(name, seq![44u8, 118u8]) {
        name.subrange(0, name.len() - 2)
    } else {
        name
    }
}

pub open spec fn attic() -> Seq<u8> {
    seq![65u8, 116u8, 116u8, 105u8, 99u8]
}

/// The path of a `,v` file as it appears in the repository: without the
/// CVSROOT prefix, without the `,v` suffix, and without a final `Attic`
/// directory.
pub open spec fn munge_spec(input: Seq<u8>, prefix: Seq<u8>) -> Seq<u8> {
    let u = strip_prefix_spec(input, prefix);
    let k = last_slash(u, u.len() as int);
    let name = u.subrange(k + 1, u.len() as int);
    let file = strip_comma_v(name);
    if name.len() == 0 {
        u
    } else if k < 0 {
        file
    } else {
        let dir = u.subrange(0, k);
        if dir == attic() {
            file
        } else if ends_with(dir, seq![47u8] + attic()) {
            dir.subrange(0, dir.len() - 6) + seq![47u8] + file
        } else {
            dir + seq![47u8] + file
        }
    }
}

fn find_last_slash(s: &[u8], end: usize) -> (r: i64)
    requires
        end <= s@.len(),
        s@.len() < i64::MAX,
    ensures
        r == last_slash(s@, end as int),
        -1 <= r < end,
{
    let mut i = end;
    while i > 0
        invariant
            i <= end,
            last_slash(s@, end as int) == last_slash(s@, i as int),
            forall|j: int| i <= j < end ==> s@[j] != 47u8,
            end <= s@.len(),
            s@.len() < i64::MAX,
        decreases i,
    {
        if s[i - 1] == 47u8 {
            return (i - 1) as i64;
        }
        i = i - 1;
    }
    -1
}

fn strip_prefix(input: &[u8], prefix: &[u8]) -> (r: Vec<u8>)
    ensures
        r@ == strip_prefix_spec(input@, prefix@),
{
    assert(input@.subrange(0, input@.len() as int) =~= input@);
    if prefix.len() == 0 || !has_prefix(input, prefix) {
        slice_copy(input, 0, input.len())
    } else if prefix[prefix.len() - 1] == 47u8 {
        slice_copy(input, prefix.len(), input.len())
    } else if input.len() == prefix.len() {
        Vec::new()
    } else if input[prefix.len()] == 47u8 {
        slice_copy(input, prefix.len() + 1, input.len())
    } else {
        slice_copy(input, 0, input.len())
    }
}

fn strip_suffix_comma_v(name: Vec<u8>) -> (r: Vec<u8>)
    ensures
        r@ == strip_comma_v(name@),
{
    let nl = name.len();
    if nl >= 2 && name[nl - 2] == 44u8 && name[nl - 1] == 118u8 {
        assert(name@.subrange(nl - 2, nl as int) =~= seq![44u8, 118u8]);
        slice_copy(name.as_slice(), 0, nl - 2)
    } else {
        proof {
            if nl >= 2 {
                assert(name@.subrange(nl - 2, nl as int)[0] == name@[nl - 2]);
                assert(name@.subrange(nl - 2, nl as int)[1] == name@[nl - 1]);
            }
        }
        name
    }
}

/// `dir`, less a final `/Attic` (or all of it, where it is `Attic`), then
/// `/` and `file`, as `munge_spec` puts them together.
fn join_dir(dir: Vec<u8>, file: Vec<u8>) -> (r: Vec<u8>)
    ensures
        r@ == if dir@ == attic() {
            file@
        } else if ends_with(dir@, seq![47u8] + attic()) {
            dir@.subrange(0, dir@.len() - 6) + seq![47u8] + file@
        } else {
            dir@ + seq![47u8] + file@
        },
{
    let dl = dir.len();
    if ends_with_attic(dir.as_slice(), 0) {
        assert(dir@.subrange(0, dl as int) =~= dir@);
        return file;
    }
    assert(dir@ != attic()) by {
        assert(dir@.subrange(0, dl as int) =~= dir@);
    }
    let mut out: Vec<u8> = Vec::new();
    if dl >= 6 && dir[dl - 6] == 47u8 && ends_with_attic(dir.as_slice(), dl - 5) {
        assert(dir@.subrange(dl - 6, dl as int) =~= seq![47u8] + attic());
        let parent = slice_copy(dir.as_slice(), 0, dl - 6);
        append_bytes(&mut out, parent.as_slice());
    } else {
        assert(!ends_with(dir@, seq![47u8] + attic())) by {
            if ends_with(dir@, seq![47u8] + attic()) {
                let t = dir@.subrange(dl - 6, dl as int);
                assert(t[0] == dir@[dl - 6]);
                assert(dir@.subrange(dl - 5, dl as int) =~= t.subrange(1, 6));
                assert(t.subrange(1, 6) =~= attic());
            }
        }
        append_bytes(&mut out, dir.as_slice());
    }
    out.push(47u8);
    append_bytes(&mut out, file.as_slice());
    out
}

/// Strips the CVSROOT prefix, the `,v` suffix of the file name, and an
/// `Attic` directory that holds the file.
pub fn munge_raw_path(input: &[u8], prefix: &[u8]) -> (r: Vec<u8>)
    requires
        input@.len() < i64::MAX,
    ensures
        r@ == munge_spec(input@, prefix@),
{
    let u = strip_prefix(input, prefix);
    let n = u.len();
    let k = find_last_slash(u.as_slice(), n);
    let start: usize = (k + 1) as usize;
    if start == n {
        return u;
    }
    let name = slice_copy(u.as_slice(), start, n);
    let file = strip_suffix_comma_v(name);
    if k < 0 {
        return file;
    }
    let dir = slice_copy(u.as_slice(), 0, k as usize);
    join_dir(dir, file)
}

/// Whether `s[start..]` is exactly `Attic`.
fn ends_with_attic(s: &[u8], start: usize) -> (r: bool)
    requires
        start <= s@.len(),
    ensures
        r == (s@.subrange(start as int, s@.len() as int) == attic()),
{
    let n = s.len();
    if n - start != 5 {
        assert(attic().len() == 5);
        return false;
    }
    let r = s[start] == 65u8 && s[start + 1] == 116u8 && s[start + 2] == 116u8 && s[start + 3]
        == 105u8 && s[start + 4] == 99u8;
    proof {
        let t = s@.subrange(start as int, n as int);
        let a = attic();
        assert(a.len() == 5 && a[0] == 65u8 && a[1] == 116u8 && a[2] == 116u8 && a[3] == 105u8 && a[4]
            == 99u8);
        assert(t[0] == s@[start as int] && t[1] == s@[start + 1] && t[2] == s@[start + 2] && t[3]
            == s@[start + 3] && t[4] == s@[start + 4]);
        if r {
            assert(t =~= a);
        }
    }
    r
}

/// The branches to import; an empty list lets every branch through.
pub struct BranchFilter {
    branches: Option<Vec<Vec<u8>>>,
}

impl BranchFilter {
    /// `None` lets every branch through; otherwise the names allowed.
    pub closed spec fn view(&self) -> Option<Seq<Seq<u8>>> {
        match &self.branches {
            None => None,
            Some(v) => Some(lines_view(v@)),
        }
    }

    /// A filter that allows the given branch names, or every branch where
    /// none is given.
    pub fn new(branches: &Vec<Vec<u8>>) -> (r: BranchFilter)
        ensures
            branches@.len() == 0 ==> r.view() is None,
            branches@.len() > 0 ==> r.view() == Some(lines_view(branches@)),
    {
        if branches.len() == 0 {
            return BranchFilter { branches: None };
        }
        let mut v: Vec<Vec<u8>> = Vec::new();
        let mut i: usize = 0;
        while i < branches.len()
            invariant
                i <= branches@.len(),
                lines_view(v@) == lines_view(branches@).subrange(0, i as int),
            decreases branches@.len() - i,
        {
            let b = copy_bytes(branches[i].as_slice());
            let ghost v0 = v@;
            v.push(b);
            assert(lines_view(v@) =~= lines_view(branches@).subrange(0, i + 1)) by {
                assert(lines_view(v@) =~= lines_view(v0).push(b@));
            }
            i = i + 1;
        }
        assert(lines_view(branches@).subrange(0, i as int) =~= lines_view(branches@));
        BranchFilter { branches: Some(v) }
    }

    /// Whether the branch is to be imported.
    pub fn contains(&self, branch: &[u8]) -> (r: bool)
        ensures
            r == match self.view() {
                None => true,
                Some(s) => s.contains(branch@),
            },
    {
        match &self.branches {
            None => true,
            Some(v) => {
                let ghost s = lines_view(v@);
                assert(self.view() == Some(s));
                let mut i: usize = 0;
                while i < v.len()
                    invariant
                        i <= v@.len(),
                        s == lines_view(v@),
                        self.view() == Some(s),
                        forall|j: int| 0 <= j < i ==> s[j] != branch@,
                    decreases v@.len() - i,
                {
                    if bytes_eq(v[i].as_slice(), branch) {
                        assert(s[i as int] == branch@);
                        assert(s.contains(branch@));
                        return true;
                    }
                    i = i + 1;
                }
                false
            },
        }
    }
}

} // verus!
