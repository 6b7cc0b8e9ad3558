//! Walking the revisions of one `,v` file: from the head down the trunk,
//! into each branch as it starts, rebuilding every revision's content from
//! the ed scripts.
use vstd::prelude::*;
use crate::ed::{EdError, File as Buffer, Script, apply_spec, commands_from, join_lines, script_lines, split_lines};
use crate::num::{Num, contains_spec};
use crate::bytes::copy_bytes;
use crate::ed::lines_view;
use crate::rcs::{Delta, DeltaText, File, find_delta, find_delta_text, key_from, lemma_key_from, same_num};
use crate::detector::{Detector, FileCommit};
use crate::fast_import::{Blob, Mark, Writer, blob_bytes_wire};
use crate::num::dotted;
use crate::state::{FileRevision, Manager, key_matches};
use vstd::string::StringSliceAdditionalSpecFns;

verus! {

/// Why a file's revisions could not be walked.
#[derive(Debug, Clone)]
pub enum WalkError {
    /// The file has no head revision.
    MissingHead,
    /// A revision that the file refers to has no delta or no delta text.
    MissingRevision(Num),
    /// A delta's script does not apply.
    Script(EdError),
    /// The revisions refer to each other in a cycle.
    Cycle,
}

pub open spec fn num_view(n: Num) -> (bool, Seq<u64>) {
    (n.is_branch(), n.parts())
}

/// What a walk failure says.
pub enum WalkFailure {
    MissingHead,
    MissingRevision((bool, Seq<u64>)),
    Script(EdError),
    Cycle,
}

pub open spec fn failure_view(e: WalkError) -> WalkFailure {
    match e {
        WalkError::MissingHead => WalkFailure::MissingHead,
        WalkError::MissingRevision(n) => WalkFailure::MissingRevision(num_view(n)),
        WalkError::Script(x) => WalkFailure::Script(x),
        WalkError::Cycle => WalkFailure::Cycle,
    }
}

/// A pending line of history: the revision to read next, and the content
/// of its parent (none for the head, whose text is its content).
pub type Pending = ((bool, Seq<u64>), Option<Seq<Seq<u8>>>);

/// The content of a revision: the head's text read as lines, or the
/// revision's ed script applied to its parent's content.
pub open spec fn content_of(parent: Option<Seq<Seq<u8>>>, text: Seq<u8>) -> Result<Seq<Seq<u8>>, EdError> {
    match parent {
        None => Ok(split_lines(text)),
        Some(c) => match commands_from(script_lines(text), 0) {
            Err(e) => Err(e),
            Ok(cmds) => apply_spec(c, cmds),
        },
    }
}

/// The entries pushed after a revision with content `c`: the rest of its
/// own line, then its branches, the first branch on top.
pub open spec fn successors(d: Delta, c: Seq<Seq<u8>>) -> Seq<Pending> {
    (match d.next {
        Some(n) => seq![(num_view(n), Some(c))],
        None => Seq::empty(),
    }) + Seq::new(
        d.branches@.len(),
        |i: int| (num_view(d.branches@[d.branches@.len() - 1 - i]), Some(c)),
    )
}

/// The walk from a stack of pending lines (the top is the last entry), with
/// at most `fuel` more revisions: each revision with its content, in order.
pub open spec fn walk_spec(f: File, stack: Seq<Pending>, fuel: nat) -> Result<Seq<((bool, Seq<u64>), Seq<u8>)>, WalkFailure>
    decreases fuel,
{
    if stack.len() == 0 {
        Ok(Seq::empty())
    } else {
        let (n, parent) = stack.last();
        match (key_from(f.delta@, n, 0), key_from(f.delta_text@, n, 0)) {
            (Some(di), Some(ti)) => if fuel == 0 {
                Err(WalkFailure::Cycle)
            } else {
                match content_of(parent, f.delta_text@[ti].1.text@) {
                    Err(e) => Err(WalkFailure::Script(e)),
                    Ok(c) => match walk_spec(
                        f,
                        stack.drop_last() + successors(f.delta@[di].1, c),
                        (fuel - 1) as nat,
                    ) {
                        Err(e) => Err(e),
                        Ok(rest) => Ok(seq![(n, join_lines(c))] + rest),
                    },
                }
            },
            _ => Err(WalkFailure::MissingRevision(n)),
        }
    }
}

/// The walk of a whole file: from the head, with one revision per delta at
/// most.
pub open spec fn walk_file(f: File) -> Result<Seq<((bool, Seq<u64>), Seq<u8>)>, WalkFailure> {
    match f.admin.head {
        None => Err(WalkFailure::MissingHead),
        Some(h) => walk_spec(f, seq![(num_view(h), None)], f.delta@.len()),
    }
}

pub open spec fn entries_view(v: Seq<(Num, Vec<u8>)>) -> Seq<((bool, Seq<u64>), Seq<u8>)> {
    v.map_values(|e: (Num, Vec<u8>)| (num_view(e.0), e.1@))
}

pub open spec fn stack_view(v: Seq<(Num, Option<Buffer>)>) -> Seq<Pending> {
    v.map_values(
        |e: (Num, Option<Buffer>)|
            (
                num_view(e.0),
                match e.1 {
                    None => None,
                    Some(b) => Some(b.view()),
                },
            ),
    )
}

/// Every revision of the file, with its content, in the order the history
/// is walked: from the head down its line, a revision before the branches
/// that start from it (each walked from a copy of its content), and those
/// before the next revision of its own line. The head's text is its
/// content; every other revision's content is its ed script applied to its
/// parent's. More revisions than deltas means the revisions refer to each
/// other in a cycle.
pub fn walk(file: &File) -> (r: Result<Vec<(Num, Vec<u8>)>, WalkError>)
    ensures
        match walk_file(*file) {
            Ok(v) => r matches Ok(out) && entries_view(out@) == v,
            Err(e) => r matches Err(x) && failure_view(x) == e,
        },
{
    let head = match &file.admin.head {
        Some(h) => h.copy(),
        None => {
            return Err(WalkError::MissingHead);
        },
    };
    let limit = file.delta.len();
    let mut out: Vec<(Num, Vec<u8>)> = Vec::new();
    let mut stack: Vec<(Num, Option<Buffer>)> = Vec::new();
    stack.push((head, None));
    assert(stack_view(stack@) =~= seq![(num_view(file.admin.head->0), None::<Seq<Seq<u8>>>)]);
    let ghost total = walk_file(*file);
    while stack.len() > 0
        invariant
            out@.len() <= limit,
            limit == file.delta@.len(),
            total == walk_file(*file),
            total == match walk_spec(*file, stack_view(stack@), (limit - out@.len()) as nat) {
                Ok(rest) => Ok(entries_view(out@) + rest),
                Err(e) => Err::<Seq<((bool, Seq<u64>), Seq<u8>)>, WalkFailure>(e),
            },
        decreases limit - out@.len(),
    {
        let ghost sv = stack_view(stack@);
        let ghost fuel = (limit - out@.len()) as nat;
        let (revision, contents) = stack.pop().unwrap();
        let ghost n = num_view(revision);
        assert(sv.last().0 == n);
        let di = find_delta(&file.delta, &revision);
        let ti = find_delta_text(&file.delta_text, &revision);
        proof {
            lemma_key_from(file.delta@, revision, di, 0);
            lemma_key_from(file.delta_text@, revision, ti, 0);
        }
        let (di, ti) = match (di, ti) {
            (Some(a), Some(b)) => (a, b),
            _ => {
                return Err(WalkError::MissingRevision(revision));
            },
        };
        if out.len() >= limit {
            return Err(WalkError::Cycle);
        }
        let delta = &file.delta[di].1;
        let text = &file.delta_text[ti].1;
        let ghost parent = sv.last().1;
        let contents = match contents {
            None => Buffer::new(text.text.as_slice()),
            Some(mut c) => {
                let commands = match Script::parse(text.text.as_slice()).into_command_list() {
                    Ok(cmds) => cmds,
                    Err(e) => {
                        return Err(WalkError::Script(e));
                    },
                };
                match c.apply_in_place(&commands) {
                    Ok(()) => {},
                    Err(e) => {
                        return Err(WalkError::Script(e));
                    },
                }
                c
            },
        };
        let ghost cv = contents.view();
        assert(content_of(parent, text.text@) == Ok::<Seq<Seq<u8>>, EdError>(cv));
        let ghost base = stack_view(stack@);
        assert(base =~= sv.drop_last());
        match &delta.next {
            Some(next) => {
                stack.push((next.copy(), Some(contents.duplicate())));
            },
            None => {},
        }
        let ghost mid = stack_view(stack@);
        assert(mid =~= base + match delta.next {
            Some(nx) => seq![(num_view(nx), Some(cv))],
            None => Seq::<Pending>::empty(),
        });
        let bl = delta.branches.len();
        let mut b = bl;
        while b > 0
            invariant
                b <= bl,
                bl == delta.branches@.len(),
                stack_view(stack@) == mid + Seq::new(
                    (bl - b) as nat,
                    |i: int| (num_view(delta.branches@[bl - 1 - i]), Some(cv)),
                ),
                contents.view() == cv,
            decreases b,
        {
            let ghost s0 = stack_view(stack@);
            stack.push((delta.branches[b - 1].copy(), Some(contents.duplicate())));
            assert(stack_view(stack@) =~= s0.push((num_view(delta.branches@[b - 1]), Some(cv))));
            assert(stack_view(stack@) =~= mid + Seq::new(
                (bl - (b - 1)) as nat,
                |i: int| (num_view(delta.branches@[bl - 1 - i]), Some(cv)),
            ));
            b = b - 1;
        }
        assert(stack_view(stack@) =~= sv.drop_last() + successors(*delta, cv));
        let bytes = contents.into_bytes();
        let ghost o = out@;
        out.push((revision, bytes));
        proof {
            assert(entries_view(out@) =~= entries_view(o).push((n, join_lines(cv))));
            match walk_spec(*file, stack_view(stack@), (fuel - 1) as nat) {
                Ok(rest) => {
                    assert(entries_view(o) + (seq![(n, join_lines(cv))] + rest) =~= entries_view(out@) + rest);
                },
                Err(e) => {},
            }
        }
    }
    assert(entries_view(out@) + Seq::empty() =~= entries_view(out@));
    Ok(out)
}

/// Whether the branch `head` holds the commit `rev`.
pub open spec fn on_branch(head: Num, rev: Num) -> bool {
    head.wf() && rev.wf() && head is Branch && rev is Commit && contains_spec(head.parts(), rev.parts())
}

/// The names of the first `n` branches that hold `rev`, in order.
pub open spec fn containing_upto(branches: Seq<(Vec<u8>, Num)>, rev: Num, n: int) -> Seq<Seq<u8>>
    decreases n,
{
    if n <= 0 {
        Seq::empty()
    } else if on_branch(branches[n - 1].1, rev) {
        containing_upto(branches, rev, n - 1).push(branches[n - 1].0@)
    } else {
        containing_upto(branches, rev, n - 1)
    }
}

/// The names of the branches that hold the revision: those whose head
/// branch number contains it.
pub fn branches_containing(branches: &Vec<(Vec<u8>, Num)>, revision: &Num) -> (r: Vec<Vec<u8>>)
    ensures
        lines_view(r@) == containing_upto(branches@, *revision, branches@.len() as int),
{
    let mut out: Vec<Vec<u8>> = Vec::new();
    let rev_ok = revision.is_wf();
    let mut i: usize = 0;
    while i < branches.len()
        invariant
            i <= branches@.len(),
            rev_ok == revision.wf(),
            lines_view(out@) == containing_upto(branches@, *revision, i as int),
        decreases branches@.len() - i,
    {
        let head = &branches[i].1;
        let hit = rev_ok && head.is_wf() && match head.contains(revision) {
            Ok(b) => b,
            Err(_) => false,
        };
        if hit {
            let name = copy_bytes(branches[i].0.as_slice());
            let ghost o = out@;
            out.push(name);
            assert(lines_view(out@) =~= lines_view(o).push(name@));
        }
        i = i + 1;
    }
    out
}

/// The branch number of the branch that `h` is on.
pub open spec fn head_branch_parts(h: Num) -> Seq<u64> {
    if h is Commit {
        h.parts().drop_last()
    } else {
        h.parts()
    }
}

/// Branch heads and tags from the symbol table.
pub struct SymbolMaps {
    /// Branch name and the branch number that it names.
    pub branches: Vec<(Vec<u8>, Num)>,
    /// Commit number and a tag name that it carries.
    pub tags: Vec<(Num, Vec<u8>)>,
}

/// Splits the symbols into branches and tags, and adds `head_branch` as the
/// name of the branch that the head revision is on.
pub fn symbol_maps(file: &File, head_branch: &[u8]) -> (r: SymbolMaps)
    ensures
        forall|k: int|
            0 <= k < r.branches@.len() ==> (#[trigger] r.branches@[k]).1 is Branch,
        forall|k: int| 0 <= k < r.tags@.len() ==> (#[trigger] r.tags@[k]).0 is Commit,
        branch_entries(r.branches@) == branch_symbols(file.admin.symbols@, file.admin.symbols@.len() as int)
            + if file.admin.head is Some && file.admin.head->0.wf() {
            seq![(head_branch@, (true, head_branch_parts(file.admin.head->0)))]
        } else {
            Seq::empty()
        },
        tag_entries(r.tags@) == tag_symbols(file.admin.symbols@, file.admin.symbols@.len() as int),
{
    let mut branches: Vec<(Vec<u8>, Num)> = Vec::new();
    let mut tags: Vec<(Num, Vec<u8>)> = Vec::new();
    let symbols = &file.admin.symbols;
    let mut i: usize = 0;
    while i < symbols.len()
        invariant
            i <= symbols@.len(),
            forall|k: int| 0 <= k < branches@.len() ==> (#[trigger] branches@[k]).1 is Branch,
            forall|k: int| 0 <= k < tags@.len() ==> (#[trigger] tags@[k]).0 is Commit,
            branch_entries(branches@) == branch_symbols(symbols@, i as int),
            tag_entries(tags@) == tag_symbols(symbols@, i as int),
        decreases symbols@.len() - i,
    {
        let name = copy_bytes(symbols[i].0.as_slice());
        let n = symbols[i].1.copy();
        let ghost b0 = branches@;
        let ghost t0 = tags@;
        match n {
            Num::Branch(_) => {
                let ghost e = (name@, num_view(n));
                branches.push((name, n));
                assert(branch_entries(branches@) =~= branch_entries(b0).push(e));
            },
            Num::Commit(_) => {
                let ghost e = (num_view(n), name@);
                tags.push((n, name));
                assert(tag_entries(tags@) =~= tag_entries(t0).push(e));
            },
        }
        i = i + 1;
    }
    let ghost b1 = branches@;
    match &file.admin.head {
        Some(h) => {
            if h.is_wf() {
                let b = h.to_branch();
                let ghost e = (head_branch@, num_view(b));
                branches.push((copy_bytes(head_branch), b));
                assert(branch_entries(branches@) =~= branch_entries(b1).push(e));
            } else {
                assert(branch_entries(b1) + Seq::empty() =~= branch_entries(b1));
            }
        },
        None => {
            assert(branch_entries(b1) + Seq::empty() =~= branch_entries(b1));
        },
    }
    SymbolMaps { branches, tags }
}

pub open spec fn branch_entries(v: Seq<(Vec<u8>, Num)>) -> Seq<(Seq<u8>, (bool, Seq<u64>))> {
    v.map_values(|e: (Vec<u8>, Num)| (e.0@, num_view(e.1)))
}

pub open spec fn tag_entries(v: Seq<(Num, Vec<u8>)>) -> Seq<((bool, Seq<u64>), Seq<u8>)> {
    v.map_values(|e: (Num, Vec<u8>)| (num_view(e.0), e.1@))
}

/// The branch symbols among the first `n`, as name and number.
pub open spec fn branch_symbols(syms: Seq<(Vec<u8>, Num)>, n: int) -> Seq<(Seq<u8>, (bool, Seq<u64>))>
    decreases n,
{
    if n <= 0 {
        Seq::empty()
    } else if syms[n - 1].1 is Branch {
        branch_symbols(syms, n - 1).push((syms[n - 1].0@, num_view(syms[n - 1].1)))
    } else {
        branch_symbols(syms, n - 1)
    }
}

/// The commit symbols (tags) among the first `n`, as number and name.
pub open spec fn tag_symbols(syms: Seq<(Vec<u8>, Num)>, n: int) -> Seq<((bool, Seq<u64>), Seq<u8>)>
    decreases n,
{
    if n <= 0 {
        Seq::empty()
    } else if syms[n - 1].1 is Commit {
        tag_symbols(syms, n - 1).push((num_view(syms[n - 1].1), syms[n - 1].0@))
    } else {
        tag_symbols(syms, n - 1)
    }
}

/// The tag names of the first `n` entries that name `rev`, in order.
pub open spec fn tags_upto(tags: Seq<(Num, Vec<u8>)>, rev: Num, n: int) -> Seq<Seq<u8>>
    decreases n,
{
    if n <= 0 {
        Seq::empty()
    } else if same_num(tags[n - 1].0, rev) {
        tags_upto(tags, rev, n - 1).push(tags[n - 1].1@)
    } else {
        tags_upto(tags, rev, n - 1)
    }
}

/// The tags that a revision carries.
pub fn tags_for(tags: &Vec<(Num, Vec<u8>)>, revision: &Num) -> (r: Vec<Vec<u8>>)
    ensures
        lines_view(r@) == tags_upto(tags@, *revision, tags@.len() as int),
{
    let mut out: Vec<Vec<u8>> = Vec::new();
    let mut i: usize = 0;
    while i < tags.len()
        invariant
            i <= tags@.len(),
            lines_view(out@) == tags_upto(tags@, *revision, i as int),
        decreases tags@.len() - i,
    {
        if crate::rcs::num_eq(&tags[i].0, revision) {
            let name = copy_bytes(tags[i].1.as_slice());
            let ghost o = out@;
            out.push(name);
            assert(lines_view(out@) =~= lines_view(o).push(name@));
        }
        i = i + 1;
    }
    out
}

/// Whether the revision deletes the file: its state is `dead`.
pub fn is_dead(delta: &Delta) -> (r: bool)
    ensures
        r == (delta.state matches Some(st) && st@ == "dead".spec_bytes()),
{
    match &delta.state {
        Some(st) => crate::detector::bytes_eq(st.as_slice(), "dead".as_bytes()),
        None => false,
    }
}

/// What a detector holds of one file commit.
pub open spec fn commit_view(c: FileCommit) -> (Seq<u8>, Option<u64>, Seq<u8>, Seq<u8>, u64) {
    (c.path@, c.id, c.author@, c.message@, c.time)
}

/// The branch detectors, as names and the file commits each was given.
pub open spec fn detectors_view(v: Seq<(Vec<u8>, Detector)>) -> Seq<(Seq<u8>, Seq<(Seq<u8>, Option<u64>, Seq<u8>, Seq<u8>, u64)>)> {
    v.map_values(|e: (Vec<u8>, Detector)| (e.0@, e.1.commits().map_values(|c: FileCommit| commit_view(c))))
}

/// The first detector from index `i` on that is named `name`.
pub open spec fn named_from(v: Seq<(Seq<u8>, Seq<(Seq<u8>, Option<u64>, Seq<u8>, Seq<u8>, u64)>)>, name: Seq<u8>, i: int) -> Option<int>
    decreases v.len() - i,
{
    if i < 0 || i >= v.len() {
        None
    } else if v[i].0 == name {
        Some(i)
    } else {
        named_from(v, name, i + 1)
    }
}

/// A file commit given to the detector of `name`, which is made where
/// there is none yet.
pub open spec fn feed(
    v: Seq<(Seq<u8>, Seq<(Seq<u8>, Option<u64>, Seq<u8>, Seq<u8>, u64)>)>,
    name: Seq<u8>,
    c: (Seq<u8>, Option<u64>, Seq<u8>, Seq<u8>, u64),
) -> Seq<(Seq<u8>, Seq<(Seq<u8>, Option<u64>, Seq<u8>, Seq<u8>, u64)>)> {
    match named_from(v, name, 0) {
        Some(i) => v.update(i, (name, v[i].1.push(c))),
        None => v.push((name, seq![c])),
    }
}

/// The commit given, in turn, to the detectors of the first `k` names.
pub open spec fn feed_all(
    v: Seq<(Seq<u8>, Seq<(Seq<u8>, Option<u64>, Seq<u8>, Seq<u8>, u64)>)>,
    names: Seq<Seq<u8>>,
    c: (Seq<u8>, Option<u64>, Seq<u8>, Seq<u8>, u64),
    k: int,
) -> Seq<(Seq<u8>, Seq<(Seq<u8>, Option<u64>, Seq<u8>, Seq<u8>, u64)>)>
    decreases k,
{
    if k <= 0 {
        v
    } else {
        feed(feed_all(v, names, c, k - 1), names[k - 1], c)
    }
}

/// Every detector is well formed and has room for `room` more commits.
pub open spec fn detectors_ready(v: Seq<(Vec<u8>, Detector)>, room: nat) -> bool {
    forall|i: int|
        0 <= i < v.len() ==> (#[trigger] v[i]).1.wf() && v[i].1.commits().len() + room < u64::MAX
}

proof fn lemma_feed_view(v: Seq<(Vec<u8>, Detector)>, i: int, e: (Vec<u8>, Detector))
    requires
        0 <= i < v.len(),
    ensures
        detectors_view(v.update(i, e)) == detectors_view(v).update(
            i,
            (e.0@, e.1.commits().map_values(|c: FileCommit| commit_view(c))),
        ),
{
    assert(detectors_view(v.update(i, e)) =~= detectors_view(v).update(
        i,
        (e.0@, e.1.commits().map_values(|c: FileCommit| commit_view(c))),
    ));
}

/// Gives a file commit to the detector of `name`, making it where needed.
fn feed_detector(
    detectors: &mut Vec<(Vec<u8>, Detector)>,
    delta_secs: u64,
    name: &[u8],
    path: &[u8],
    id: u64,
    author: &[u8],
    message: &[u8],
    time: u64,
    room: Ghost<nat>,
)
    requires
        detectors_ready(old(detectors)@, room@ + 1),
        room@ + 2 < u64::MAX,
    ensures
        detectors_ready(final(detectors)@, room@),
        detectors_view(final(detectors)@) == feed(
            detectors_view(old(detectors)@),
            name@,
            (path@, Some(id), author@, message@, time),
        ),
{
    let ghost c = (path@, Some(id), author@, message@, time);
    let ghost v0 = detectors_view(detectors@);
    let mut i: usize = 0;
    let mut found = false;
    while i < detectors.len() && !found
        invariant
            i <= detectors@.len(),
            detectors@ == old(detectors)@,
            v0 == detectors_view(detectors@),
            named_from(v0, name@, 0) == named_from(v0, name@, i as int),
            found ==> i < detectors@.len() && v0[i as int].0 == name@,
        decreases detectors@.len() - i + if found { 0int } else { 1int },
    {
        assert(v0[i as int].0 == detectors@[i as int].0@);
        if crate::detector::bytes_eq(detectors[i].0.as_slice(), name) {
            found = true;
        } else {
            i = i + 1;
        }
    }
    if found {
        assert(named_from(v0, name@, 0) == Some(i as int));
        let (n, mut det) = detectors.remove(i);
        assert((n, det) == old(detectors)@[i as int]);
        det.add_file_commit(copy_bytes(path), Some(id), copy_bytes(author), copy_bytes(message), time);
        let ghost e = (n, det);
        proof {
            assert(det.commits().map_values(|x: FileCommit| commit_view(x)) =~= old(detectors)@[i as int].1.commits().map_values(
                |x: FileCommit| commit_view(x),
            ).push(c));
        }
        detectors.insert(i, (n, det));
        assert(detectors@ =~= old(detectors)@.update(i as int, e));
        proof {
            lemma_feed_view(old(detectors)@, i as int, e);
        }
        assert(detectors_view(detectors@) =~= feed(v0, name@, c));
        assert forall|j: int| 0 <= j < detectors@.len() implies (#[trigger] detectors@[j]).1.wf()
            && detectors@[j].1.commits().len() + room@ < u64::MAX by {
            if j != i {
                assert(detectors@[j] == old(detectors)@[j]);
            }
        }
    } else {
        assert(named_from(v0, name@, 0) is None);
        let mut det = Detector::new(delta_secs);
        det.add_file_commit(copy_bytes(path), Some(id), copy_bytes(author), copy_bytes(message), time);
        let ghost n = det;
        assert(det.commits().map_values(|x: FileCommit| commit_view(x)) =~= seq![c]);
        let ghost d1 = detectors@;
        detectors.push((copy_bytes(name), det));
        assert(detectors_view(detectors@) =~= feed(v0, name@, c));
        assert forall|j: int| 0 <= j < detectors@.len() implies (#[trigger] detectors@[j]).1.wf()
            && detectors@[j].1.commits().len() + room@ < u64::MAX by {
            if j < d1.len() {
                assert(detectors@[j] == d1[j]);
            }
        }
    }
}

/// Records one reconstructed revision of the file at `path`: a revision
/// already known leaves everything as it was; otherwise its content is sent
/// as a blob (unless the revision is dead), it is stored with the branches
/// that hold it, each of those branches' detectors gets it as a file commit,
/// and each tag it carries gets it. Returns the new file revision's id.
pub fn observe_revision(
    state: &mut Manager,
    writer: &mut Writer,
    detectors: &mut Vec<(Vec<u8>, Detector)>,
    delta_secs: u64,
    path: &[u8],
    revision: &Num,
    content: &[u8],
    delta: &Delta,
    text: &DeltaText,
    maps: &SymbolMaps,
    time: u64,
) -> (r: Option<u64>)
    requires
        old(state).file_revisions@.len() < u64::MAX,
        old(writer).next_mark_spec() < usize::MAX,
        maps.branches@.len() + 2 < u64::MAX,
        detectors_ready(old(detectors)@, maps.branches@.len()),
    ensures
        ({
            let rev = dotted(revision.parts());
            let known = exists|j: int|
                0 <= j < old(state).file_revisions@.len() && key_matches(
                    #[trigger] old(state).file_revisions@[j],
                    path@,
                    rev,
                );
            let id = old(state).file_revisions@.len();
            let dead = is_dead_spec(*delta);
            let mark = if dead {
                None
            } else {
                Some(Mark(old(writer).next_mark_spec()))
            };
            let branches = containing_upto(maps.branches@, *revision, maps.branches@.len() as int);
            let tags = tags_upto(maps.tags@, *revision, maps.tags@.len() as int);
            if known {
                &&& r is None
                &&& *final(state) == *old(state)
                &&& *final(writer) == *old(writer)
                &&& final(detectors)@ == old(detectors)@
            } else {
                &&& r == Some(id as u64)
                &&& final(state).file_revisions@.drop_last() == old(state).file_revisions@
                &&& final(state).file_revisions@.len() == id + 1
                &&& revision_record(final(state).file_revisions@.last(), path@, rev, mark, branches, delta.author@, text.log@, time)
                &&& final(writer).output() == old(writer).output() + if dead {
                    Seq::<u8>::empty()
                } else {
                    blob_bytes_wire(content@, Mark(old(writer).next_mark_spec()))
                }
                &&& final(writer).next_mark_spec() == if dead {
                    old(writer).next_mark_spec()
                } else {
                    (old(writer).next_mark_spec() + 1) as usize
                }
                &&& detectors_view(final(detectors)@) == feed_all(
                    detectors_view(old(detectors)@),
                    branches,
                    (path@, Some(id as u64), delta.author@, text.log@, time),
                    branches.len() as int,
                )
                &&& tag_log_view(final(state).tag_log@) == tag_log_view(old(state).tag_log@) + tags.map_values(
                    |t: Seq<u8>| (t, id as u64),
                )
                &&& final(state).patchsets == old(state).patchsets
                &&& final(state).branch_log == old(state).branch_log
                &&& final(state).tag_marks == old(state).tag_marks
                &&& final(state).raw_marks == old(state).raw_marks
            }
        }),
{
    let rev = revision.to_bytes();
    match state.get_file_revision(path, rev.as_slice()) {
        Ok(_) => {
            return None;
        },
        Err(_) => {},
    }
    let dead = is_dead(delta);
    let mark = if dead {
        None
    } else {
        Some(writer.blob(&Blob::new(content)))
    };
    let branches = branches_containing(&maps.branches, revision);
    let ghost bview = lines_view(branches@);
    let id = state.add_file_revision(
        copy_bytes(path),
        rev,
        mark,
        copy_branch_names(&branches),
        copy_bytes(delta.author.as_slice()),
        copy_bytes(text.log.as_slice()),
        time,
    );
    let ghost s_mid = *state;
    let ghost c = (path@, Some(id), delta.author@, text.log@, time);
    let ghost d0 = detectors_view(detectors@);
    proof {
        lemma_containing_len(maps.branches@, *revision, maps.branches@.len() as int);
    }
    let mut k: usize = 0;
    while k < branches.len()
        invariant
            k <= branches@.len(),
            bview == lines_view(branches@),
            branches@.len() <= maps.branches@.len(),
            maps.branches@.len() + 2 < u64::MAX,
            c == (path@, Some(id), delta.author@, text.log@, time),
            detectors_ready(detectors@, (maps.branches@.len() - k) as nat),
            detectors_view(detectors@) == feed_all(d0, bview, c, k as int),
        decreases branches@.len() - k,
    {
        assert(bview[k as int] == branches@[k as int]@);
        feed_detector(
            detectors,
            delta_secs,
            branches[k].as_slice(),
            path,
            id,
            delta.author.as_slice(),
            text.log.as_slice(),
            time,
            Ghost((maps.branches@.len() - k - 1) as nat),
        );
        assert(feed_all(d0, bview, c, k + 1) == feed(feed_all(d0, bview, c, k as int), bview[k as int], c));
        k = k + 1;
    }
    let tags = tags_for(&maps.tags, revision);
    let ghost tview = lines_view(tags@);
    let ghost t0 = tag_log_view(state.tag_log@);
    let mut j: usize = 0;
    while j < tags.len()
        invariant
            j <= tags@.len(),
            tview == lines_view(tags@),
            tag_log_view(state.tag_log@) == t0 + tview.subrange(0, j as int).map_values(
                |t: Seq<u8>| (t, id),
            ),
            state.file_revisions == s_mid.file_revisions,
            state.patchsets == s_mid.patchsets,
            state.branch_log == s_mid.branch_log,
            state.tag_marks == s_mid.tag_marks,
            state.raw_marks == s_mid.raw_marks,
        decreases tags@.len() - j,
    {
        let ghost before = state.tag_log@;
        state.add_tag(tags[j].as_slice(), id);
        proof {
            assert(state.tag_log@ =~= before.push(state.tag_log@.last()));
            assert(tag_log_view(state.tag_log@) =~= tag_log_view(before).push((tview[j as int], id)));
            assert(tview.subrange(0, j + 1).map_values(|t: Seq<u8>| (t, id)) =~= tview.subrange(
                0,
                j as int,
            ).map_values(|t: Seq<u8>| (t, id)).push((tview[j as int], id)));
        }
        j = j + 1;
    }
    assert(tview.subrange(0, j as int) =~= tview);
    Some(id)
}

proof fn lemma_containing_len(branches: Seq<(Vec<u8>, Num)>, rev: Num, n: int)
    requires
        0 <= n,
    ensures
        containing_upto(branches, rev, n).len() <= n,
    decreases n,
{
    if n > 0 {
        lemma_containing_len(branches, rev, n - 1);
    }
}

/// The state's tag log as names and ids.
pub open spec fn tag_log_view(log: Seq<(Vec<u8>, u64)>) -> Seq<(Seq<u8>, u64)> {
    log.map_values(|e: (Vec<u8>, u64)| (e.0@, e.1))
}

/// Whether a delta's state is `dead`.
pub open spec fn is_dead_spec(delta: Delta) -> bool {
    delta.state matches Some(st) && st@ == "dead".spec_bytes()
}

/// The stored record of a file revision, by its views.
pub open spec fn revision_record(
    fr: FileRevision,
    path: Seq<u8>,
    rev: Seq<u8>,
    mark: Option<Mark>,
    branches: Seq<Seq<u8>>,
    author: Seq<u8>,
    message: Seq<u8>,
    time: u64,
) -> bool {
    &&& fr.path@ == path
    &&& fr.revision@ == rev
    &&& fr.mark == mark
    &&& lines_view(fr.branches@) == branches
    &&& fr.author@ == author
    &&& fr.message@ == message
    &&& fr.time == time
}

fn copy_branch_names(v: &Vec<Vec<u8>>) -> (r: Vec<Vec<u8>>)
    ensures
        lines_view(r@) == lines_view(v@),
{
    let mut out: Vec<Vec<u8>> = Vec::new();
    let mut i: usize = 0;
    while i < v.len()
        invariant
            i <= v@.len(),
            lines_view(out@) == lines_view(v@).subrange(0, i as int),
        decreases v@.len() - i,
    {
        let b = copy_bytes(v[i].as_slice());
        let ghost o = out@;
        out.push(b);
        assert(lines_view(out@) =~= lines_view(o).push(b@));
        assert(lines_view(v@).subrange(0, i + 1) =~= lines_view(v@).subrange(0, i as int).push(v@[i as int]@));
        i = i + 1;
    }
    assert(lines_view(v@).subrange(0, i as int) =~= lines_view(v@));
    out
}

} // verus!
