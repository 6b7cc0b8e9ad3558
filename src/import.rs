//! Turning detected patchsets into commits against the state: a patchset
//! whose content was already sent (on another branch) reuses its commit.
use vstd::prelude::*;
use crate::bytes::{append_bytes, copy_bytes};
use crate::detector::{PatchSet, files_view};
use crate::fast_import::{Commit, FileCommand, Identity, Mark, Mode, Writer, commit_wire, mark_line_wire};
use crate::state::{FileRevision, Manager, StateError, StoredPatchSet, latest_content, last_logged};
use vstd::string::StringSliceAdditionalSpecFns;

verus! {

/// `refs/heads/` and the branch name.
pub open spec fn branch_ref_spec(branch: Seq<u8>) -> Seq<u8> {
    "refs/heads/".spec_bytes() + branch
}

/// The ref of a branch.
pub fn branch_ref(branch: &[u8]) -> (r: Vec<u8>)
    ensures
        r@ == branch_ref_spec(branch@),
{
    let mut out: Vec<u8> = Vec::new();
    append_bytes(&mut out, "refs/heads/".as_bytes());
    append_bytes(&mut out, branch);
    out
}

/// The ids of the first `n` entries, deletions left out.
pub open spec fn ids_upto(files: Seq<(Seq<u8>, Option<u64>)>, n: int) -> Seq<u64>
    decreases n,
{
    if n <= 0 {
        Seq::empty()
    } else {
        match files[n - 1].1 {
            Some(id) => ids_upto(files, n - 1).push(id),
            None => ids_upto(files, n - 1),
        }
    }
}

/// Whether entry `k` is the last one for its path.
pub open spec fn last_for_path(files: Seq<(Seq<u8>, Option<u64>)>, k: int) -> bool {
    forall|j: int| k < j < files.len() ==> (#[trigger] files[j]).0 != files[k].0
}

/// What a file command says: `Some(mark)` for new content, `None` for a
/// deletion, and the path.
pub open spec fn command_view(c: FileCommand) -> (Option<Mark>, Seq<u8>) {
    match c {
        FileCommand::Modify { mark, path, .. } => (Some(mark), path@),
        FileCommand::Delete { path } => (None, path@),
        FileCommand::Copy { to, .. } => (None, to@),
        FileCommand::Rename { to, .. } => (None, to@),
        FileCommand::DeleteAll => (None, Seq::empty()),
    }
}

/// The content of the file after the entry: the blob of its file revision,
/// or none where the entry or its revision deletes the file.
pub open spec fn entry_content(s: Seq<FileRevision>, e: (Seq<u8>, Option<u64>)) -> Option<Mark> {
    match e.1 {
        None => None,
        Some(id) => s[id as int].mark,
    }
}

/// The file commands of the first `n` entries: one for each entry that is
/// the last for its path.
pub open spec fn commands_upto(s: Seq<FileRevision>, files: Seq<(Seq<u8>, Option<u64>)>, n: int) -> Seq<(Option<Mark>, Seq<u8>)>
    decreases n,
{
    if n <= 0 {
        Seq::empty()
    } else if last_for_path(files, n - 1) {
        commands_upto(s, files, n - 1).push((entry_content(s, files[n - 1]), files[n - 1].0))
    } else {
        commands_upto(s, files, n - 1)
    }
}

/// Every id of an entry that is last for its path names a file revision.
pub open spec fn ids_known(s: Seq<FileRevision>, files: Seq<(Seq<u8>, Option<u64>)>) -> bool {
    forall|k: int|
        0 <= k < files.len() && last_for_path(files, k) && (#[trigger] files[k]).1 is Some ==> files[k].1->0
            < s.len()
}

/// The commit that a patchset becomes on `branch` with parent `from`: by
/// the patchset's author at its time, with its message and one file command
/// per path, for the path's last entry.
#[verifier::opaque]
pub open spec fn patchset_commit_ok(s: Seq<FileRevision>, branch: Seq<u8>, p: PatchSet, from: Option<Mark>, c: Commit) -> bool {
    let fv = files_view(p.files@);
    &&& c.branch_ref@ == branch_ref_spec(branch)
    &&& c.author is None
    &&& c.committer.name is None
    &&& c.committer.email@ == p.author@
    &&& c.committer.when == p.time
    &&& c.message@ == p.message@
    &&& c.from == from
    &&& c.merge is None
    &&& c.commands@.map_values(|x: FileCommand| command_view(x)) == commands_upto(s, fv, fv.len() as int)
}

/// What to do with a detected patchset.
pub enum PatchsetStep {
    /// The same content was sent before as this commit: record the branch
    /// against it.
    Reuse(Mark),
    /// Send this commit, then record it with these file revisions.
    Send(Commit, Vec<u64>),
}

/// All the ids of the patchset, deletions left out.
pub fn patchset_ids(p: &PatchSet) -> (r: Vec<u64>)
    ensures
        r@ == ids_upto(files_view(p.files@), p.files@.len() as int),
{
    let ghost fv = files_view(p.files@);
    let mut out: Vec<u64> = Vec::new();
    let mut i: usize = 0;
    while i < p.files.len()
        invariant
            i <= p.files@.len(),
            fv == files_view(p.files@),
            out@ == ids_upto(fv, i as int),
        decreases p.files@.len() - i,
    {
        assert(fv[i as int] == (p.files@[i as int].0@, p.files@[i as int].1));
        match p.files[i].1 {
            Some(id) => out.push(id),
            None => {},
        }
        i = i + 1;
    }
    out
}

/// Whether a later entry has the same path as entry `k`.
fn later_same_path(files: &Vec<(Vec<u8>, Option<u64>)>, k: usize) -> (r: bool)
    requires
        k < files@.len(),
    ensures
        r == !last_for_path(files_view(files@), k as int),
{
    let ghost fv = files_view(files@);
    let n = files.len();
    let mut j = k + 1;
    while j < files.len()
        invariant
            k < j <= files@.len(),
            fv == files_view(files@),
            forall|j2: int| k < j2 < j ==> (#[trigger] fv[j2]).0 != fv[k as int].0,
        decreases files@.len() - j,
    {
        assert(fv[j as int] == (files@[j as int].0@, files@[j as int].1));
        assert(fv[k as int] == (files@[k as int].0@, files@[k as int].1));
        if crate::detector::bytes_eq(files[j].0.as_slice(), files[k].0.as_slice()) {
            return true;
        }
        j = j + 1;
    }
    false
}

impl Manager {
    /// Decides what to do with a patchset on `branch` whose parent is
    /// `from`: reuse the commit of a patchset sent before with the same time
    /// and file revisions, or build the commit to send. The commit is made
    /// by the patchset's author at its time, and holds one file command per
    /// path, for the path's last entry.
    pub fn plan_patchset(&self, branch: &[u8], p: &PatchSet, from: Option<Mark>) -> (r: Result<PatchsetStep, StateError>)
        ensures
            ({
                let fv = files_view(p.files@);
                let ids = ids_upto(fv, fv.len() as int);
                match latest_content(self.patchsets@, p.time, ids, self.patchsets@.len() as int) {
                    Some(i) => r matches Ok(PatchsetStep::Reuse(m)) && m == self.patchsets@[i].mark,
                    None => if ids_known(self.file_revisions@, fv) {
                        r matches Ok(PatchsetStep::Send(c, v)) && v@ == ids && patchset_commit_ok(
                            self.file_revisions@,
                            branch@,
                            *p,
                            from,
                            c,
                        )
                    } else {
                        r matches Err(StateError::NoFileRevisionForID(_))
                    },
                }
            }),
    {
        proof {
            reveal(patchset_commit_ok);
        }
        let ids = patchset_ids(p);
        match self.get_mark_from_patchset_content(p.time, ids.as_slice()) {
            Some(m) => {
                return Ok(PatchsetStep::Reuse(m));
            },
            None => {},
        }
        let ghost fv = files_view(p.files@);
        let mut commands: Vec<FileCommand> = Vec::new();
        let mut k: usize = 0;
        while k < p.files.len()
            invariant
                k <= p.files@.len(),
                fv == files_view(p.files@),
                ids@ == ids_upto(fv, fv.len() as int),
                latest_content(self.patchsets@, p.time, ids@, self.patchsets@.len() as int) is None,
                commands@.map_values(|x: FileCommand| command_view(x)) == commands_upto(self.file_revisions@, fv, k as int),
                forall|k2: int|
                    0 <= k2 < k && last_for_path(fv, k2) && (#[trigger] fv[k2]).1 is Some ==> fv[k2].1->0
                        < self.file_revisions@.len(),
            decreases p.files@.len() - k,
        {
            assert(fv[k as int] == (p.files@[k as int].0@, p.files@[k as int].1));
            if !later_same_path(&p.files, k) {
                let path = copy_bytes(p.files[k].0.as_slice());
                let cmd = match p.files[k].1 {
                    None => FileCommand::Delete { path },
                    Some(id) => match self.get_file_revision_by_id(id) {
                        Err(e) => {
                            assert(last_for_path(fv, k as int) && fv[k as int].1 is Some);
                            assert(!ids_known(self.file_revisions@, fv));
                            return Err(e);
                        },
                        Ok(fr) => match fr.mark {
                            Some(mark) => FileCommand::Modify { mode: Mode::Normal, mark, path },
                            None => FileCommand::Delete { path },
                        },
                    },
                };
                let ghost c0 = commands@;
                commands.push(cmd);
                assert(commands@.map_values(|x: FileCommand| command_view(x)) =~= c0.map_values(
                    |x: FileCommand| command_view(x),
                ).push(command_view(cmd)));
            }
            k = k + 1;
        }
        let committer = Identity { name: None, email: copy_bytes(p.author.as_slice()), when: p.time };
        let commit = Commit {
            branch_ref: branch_ref(branch),
            author: None,
            committer,
            message: copy_bytes(p.message.as_slice()),
            from,
            merge: None,
            commands,
        };
        Ok(PatchsetStep::Send(commit, ids))
    }
}

/// A patchset that was just sent is what its content finds from then on:
/// the commit is reused rather than sent again, whichever branch asks.
pub proof fn lemma_sent_content_is_found(ps: Seq<StoredPatchSet>, sent: StoredPatchSet, time: u64, ids: Seq<u64>)
    requires
        sent.time == time,
        sent.file_revisions@.to_set() == ids.to_set(),
    ensures
        latest_content(ps.push(sent), time, ids, ps.len() as int + 1) == Some(ps.len() as int),
{
    assert(ps.push(sent)[ps.len() as int] == sent);
}

/// A patchset found by its content stays found when another is sent.
proof fn lemma_content_stays(ps: Seq<StoredPatchSet>, x: StoredPatchSet, time: u64, ids: Seq<u64>, n: int)
    requires
        0 <= n <= ps.len(),
        latest_content(ps, time, ids, n) is Some,
    ensures
        latest_content(ps.push(x), time, ids, n) is Some,
    decreases n,
{
    let q = ps.push(x);
    assert(q[n - 1] == ps[n - 1]);
    if !(ps[n - 1].time == time && crate::state::same_ids(ps[n - 1].file_revisions@, ids)) {
        lemma_content_stays(ps, x, time, ids, n - 1);
    }
}

proof fn lemma_content_stays_push(ps: Seq<StoredPatchSet>, x: StoredPatchSet, time: u64, ids: Seq<u64>)
    requires
        latest_content(ps, time, ids, ps.len() as int) is Some,
    ensures
        latest_content(ps.push(x), time, ids, ps.len() as int + 1) is Some,
{
    lemma_content_stays(ps, x, time, ids, ps.len() as int);
}

/// The ids of a detected patchset, by its view.
pub open spec fn patchset_content(p: PatchSet) -> Seq<u64> {
    ids_upto(files_view(p.files@), p.files@.len() as int)
}

/// A stored patchset as mark, time and ids.
pub open spec fn stored_view(ps: Seq<StoredPatchSet>) -> Seq<(Mark, u64, Seq<u64>)> {
    ps.map_values(|x: StoredPatchSet| (x.mark, x.time, x.file_revisions@))
}

/// `latest_content`, over the stored view.
pub open spec fn latest_content_v(sv: Seq<(Mark, u64, Seq<u64>)>, time: u64, ids: Seq<u64>, n: int) -> Option<int>
    decreases n,
{
    if n <= 0 {
        None
    } else if sv[n - 1].1 == time && crate::state::same_ids(sv[n - 1].2, ids) {
        Some(n - 1)
    } else {
        latest_content_v(sv, time, ids, n - 1)
    }
}

proof fn lemma_latest_content_bounds(ps: Seq<StoredPatchSet>, time: u64, ids: Seq<u64>, n: int)
    ensures
        latest_content(ps, time, ids, n) matches Some(i) ==> 0 <= i < n,
    decreases n,
{
    if n > 0 {
        lemma_latest_content_bounds(ps, time, ids, n - 1);
    }
}

proof fn lemma_latest_content_view(ps: Seq<StoredPatchSet>, time: u64, ids: Seq<u64>, n: int)
    requires
        n <= ps.len(),
    ensures
        latest_content(ps, time, ids, n) == latest_content_v(stored_view(ps), time, ids, n),
    decreases n,
{
    if n > 0 {
        assert(stored_view(ps)[n - 1] == (ps[n - 1].mark, ps[n - 1].time, ps[n - 1].file_revisions@));
        lemma_latest_content_view(ps, time, ids, n - 1);
    }
}

/// What sending one patchset does, from the stored patchsets, the branch
/// head and the next mark: reuse a commit with the same content, or send a
/// new one (returned as its parent and mark); `None` where the patchset must
/// be sent and names an unknown file revision.
#[verifier::opaque]
pub open spec fn step_spec(
    frs: Seq<FileRevision>,
    sv: Seq<(Mark, u64, Seq<u64>)>,
    p: PatchSet,
    fr: Option<Mark>,
    nx: usize,
) -> Option<(Seq<(Mark, u64, Seq<u64>)>, usize, Option<Mark>, Option<(Option<Mark>, Mark)>)> {
    let ids = patchset_content(p);
    match latest_content_v(sv, p.time, ids, sv.len() as int) {
        Some(i) => Some((sv, nx, Some(sv[i].0), None)),
        None => if ids_known(frs, files_view(p.files@)) {
            Some((sv.push((Mark(nx), p.time, ids)), (nx + 1) as usize, Some(Mark(nx)), Some((fr, Mark(nx)))))
        } else {
            None
        },
    }
}

/// What sending the first `n` patchsets of a branch does: the stored
/// patchsets, the next mark, the branch head, and for each commit sent, the
/// patchset's index, its parent and its mark; `None` where a patchset that
/// must be sent names an unknown file revision.
#[verifier::opaque]
pub open spec fn branch_run(
    frs: Seq<FileRevision>,
    sv0: Seq<(Mark, u64, Seq<u64>)>,
    pts: Seq<PatchSet>,
    from0: Option<Mark>,
    next0: usize,
    n: int,
) -> Option<(Seq<(Mark, u64, Seq<u64>)>, usize, Option<Mark>, Seq<(int, Option<Mark>, Mark)>)>
    decreases n,
{
    if n <= 0 {
        Some((sv0, next0, from0, Seq::empty()))
    } else {
        match branch_run(frs, sv0, pts, from0, next0, n - 1) {
            None => None,
            Some((sv, nx, fr, sent)) => match step_spec(frs, sv, pts[n - 1], fr, nx) {
                None => None,
                Some((sv2, nx2, fr2, s)) => Some(
                    (
                        sv2,
                        nx2,
                        fr2,
                        match s {
                            Some((pf, m)) => sent.push((n - 1, pf, m)),
                            None => sent,
                        },
                    ),
                ),
            },
        }
    }
}

proof fn lemma_run_start(
    frs: Seq<FileRevision>,
    sv0: Seq<(Mark, u64, Seq<u64>)>,
    pts: Seq<PatchSet>,
    from0: Option<Mark>,
    next0: usize,
)
    ensures
        branch_run(frs, sv0, pts, from0, next0, 0) == Some((sv0, next0, from0, Seq::<(int, Option<Mark>, Mark)>::empty())),
{
    reveal(branch_run);
}

proof fn lemma_run_next(
    frs: Seq<FileRevision>,
    sv0: Seq<(Mark, u64, Seq<u64>)>,
    pts: Seq<PatchSet>,
    from0: Option<Mark>,
    next0: usize,
    n: int,
    sv: Seq<(Mark, u64, Seq<u64>)>,
    nx: usize,
    fr: Option<Mark>,
    sent: Seq<(int, Option<Mark>, Mark)>,
)
    requires
        0 <= n,
        branch_run(frs, sv0, pts, from0, next0, n) == Some((sv, nx, fr, sent)),
    ensures
        branch_run(frs, sv0, pts, from0, next0, n + 1) == match step_spec(frs, sv, pts[n], fr, nx) {
            None => None,
            Some((sv2, nx2, fr2, s)) => Some(
                (
                    sv2,
                    nx2,
                    fr2,
                    match s {
                        Some((pf, m)) => sent.push((n, pf, m)),
                        None => sent,
                    },
                ),
            ),
        },
{
    reveal(branch_run);
}

proof fn lemma_run_none_sticks(
    frs: Seq<FileRevision>,
    sv0: Seq<(Mark, u64, Seq<u64>)>,
    pts: Seq<PatchSet>,
    from0: Option<Mark>,
    next0: usize,
    k: int,
    n: int,
)
    requires
        0 <= k <= n,
        branch_run(frs, sv0, pts, from0, next0, k) is None,
    ensures
        branch_run(frs, sv0, pts, from0, next0, n) is None,
    decreases n - k,
{
    reveal(branch_run);
    if k < n {
        lemma_run_none_sticks(frs, sv0, pts, from0, next0, k, n - 1);
    }
}

/// The bytes of the first `k` commits sent.
#[verifier::opaque]
pub open spec fn sent_bytes(cs: Seq<Commit>, sent: Seq<(int, Option<Mark>, Mark)>, k: int) -> Seq<u8>
    decreases k,
{
    if k <= 0 {
        Seq::empty()
    } else {
        sent_bytes(cs, sent, k - 1) + commit_wire(cs[k - 1], sent[k - 1].2)
    }
}

/// The reset that points the branch at its head, if it has one.
#[verifier::opaque]
pub open spec fn head_reset(branch: Seq<u8>, head: Option<Mark>) -> Seq<u8> {
    match head {
        Some(m) => "reset ".spec_bytes() + branch_ref_spec(branch) + "\n".spec_bytes() + mark_line_wire(
            "from ".spec_bytes(),
            Some(m),
        ),
        None => Seq::empty(),
    }
}

/// Each commit sent is the commit that its patchset becomes with its parent.
#[verifier::opaque]
pub open spec fn sent_commits_ok(
    frs: Seq<FileRevision>,
    branch: Seq<u8>,
    pts: Seq<PatchSet>,
    sent: Seq<(int, Option<Mark>, Mark)>,
    cs: Seq<Commit>,
) -> bool {
    &&& cs.len() == sent.len()
    &&& forall|j: int|
        0 <= j < sent.len() ==> 0 <= (#[trigger] sent[j]).0 < pts.len() && patchset_commit_ok(
            frs,
            branch,
            pts[sent[j].0],
            sent[j].1,
            cs[j],
        )
}

/// Sends one patchset of a branch, or records the commit that already
/// holds its content as the branch's head; returns the new head.
fn send_step(state: &mut Manager, writer: &mut Writer, branch: &[u8], p: &PatchSet, from: Option<Mark>) -> (r: Result<Option<Mark>, StateError>)
    requires
        old(writer).next_mark_spec() + 1 < usize::MAX,
        from == last_logged(old(state).branch_log@, branch@, old(state).branch_log@.len() as int),
    ensures
        match step_spec(
            old(state).file_revisions@,
            stored_view(old(state).patchsets@),
            *p,
            from,
            old(writer).next_mark_spec(),
        ) {
            None => r matches Err(e) && e is NoFileRevisionForID,
            Some((sv2, nx2, fr2, sent)) => {
                &&& r == Ok::<Option<Mark>, StateError>(fr2)
                &&& final(writer).next_mark_spec() <= old(writer).next_mark_spec() + 1
                &&& stored_view(final(state).patchsets@) == sv2
                &&& final(writer).next_mark_spec() == nx2
                &&& fr2 == last_logged(final(state).branch_log@, branch@, final(state).branch_log@.len() as int)
                &&& match sent {
                    None => final(writer).output() == old(writer).output(),
                    Some((pf, m)) => exists|c: Commit|
                        patchset_commit_ok(old(state).file_revisions@, branch@, *p, pf, c)
                            && #[trigger] final(writer).output() == old(writer).output() + commit_wire(c, m),
                }
                &&& latest_content(
                    final(state).patchsets@,
                    p.time,
                    patchset_content(*p),
                    final(state).patchsets@.len() as int,
                ) is Some
                &&& forall|t: u64, ids: Seq<u64>|
                    latest_content(old(state).patchsets@, t, ids, old(state).patchsets@.len() as int) is Some
                        ==> #[trigger] latest_content(final(state).patchsets@, t, ids, final(state).patchsets@.len() as int)
                        is Some
            },
        },
        final(state).file_revisions == old(state).file_revisions,
        final(state).tag_log == old(state).tag_log,
        final(state).tag_marks == old(state).tag_marks,
        final(state).raw_marks == old(state).raw_marks,
{
    let ghost ps0 = state.patchsets@;
    let ghost ps_frs = state.file_revisions@;
    proof {
        reveal(step_spec);
        lemma_latest_content_view(ps0, p.time, patchset_content(*p), ps0.len() as int);
        lemma_latest_content_bounds(ps0, p.time, patchset_content(*p), ps0.len() as int);
    }
    match state.plan_patchset(branch, p, from) {
        Err(e) => Err(e),
        Ok(PatchsetStep::Reuse(m)) => {
            proof {
                let i = latest_content(ps0, p.time, patchset_content(*p), ps0.len() as int)->0;
                assert(stored_view(ps0)[i] == (ps0[i].mark, ps0[i].time, ps0[i].file_revisions@));
            }
            state.add_branch_to_patchset_mark(m, branch);
            Ok(Some(m))
        },
        Ok(PatchsetStep::Send(commit, ids)) => {
            let ghost w0 = writer.output();
            let mark = writer.commit(&commit);
            state.add_patchset(mark, branch, p.time, ids.as_slice());
            proof {
                assert(patchset_commit_ok(ps_frs, branch@, *p, from, commit));
                assert(writer.output() == w0 + commit_wire(commit, mark));
                let x = state.patchsets@.last();
                assert(state.patchsets@ =~= ps0.push(x));
                assert(stored_view(state.patchsets@) =~= stored_view(ps0).push((mark, p.time, ids@)));
                lemma_sent_content_is_found(ps0, x, p.time, patchset_content(*p));
                assert forall|t: u64, ids2: Seq<u64>|
                    latest_content(ps0, t, ids2, ps0.len() as int) is Some implies #[trigger] latest_content(
                        state.patchsets@,
                        t,
                        ids2,
                        state.patchsets@.len() as int,
                    ) is Some by {
                    lemma_content_stays_push(ps0, x, t, ids2);
                }
            }
            Ok(Some(mark))
        },
    }
}

/// Points the branch ref at its head, where it has one.
fn reset_head(writer: &mut Writer, branch: &[u8], head: Option<Mark>)
    ensures
        final(writer).output() == old(writer).output() + head_reset(branch@, head),
        final(writer).next_mark_spec() == old(writer).next_mark_spec(),
{
    proof {
        reveal(head_reset);
    }
    match head {
        Some(m) => {
            let r = branch_ref(branch);
            writer.reset(r.as_slice(), Some(m));
            assert(writer.output() =~= old(writer).output() + head_reset(branch@, head));
        },
        None => {
            assert(writer.output() =~= old(writer).output() + head_reset(branch@, head));
        },
    }
}

/// One patchset of `send_branch`, with the facts that its loop keeps.
#[verifier::rlimit(100)]
fn branch_step(
    state: &mut Manager,
    writer: &mut Writer,
    branch: &[u8],
    patchsets: &Vec<PatchSet>,
    k: usize,
    from: Option<Mark>,
    frs: Ghost<Seq<FileRevision>>,
    sv0: Ghost<Seq<(Mark, u64, Seq<u64>)>>,
    from0: Ghost<Option<Mark>>,
    next0: Ghost<usize>,
    sent: Ghost<Seq<(int, Option<Mark>, Mark)>>,
    cs: Ghost<Seq<Commit>>,
    w0: Ghost<Seq<u8>>,
) -> (r: Result<(Option<Mark>, Ghost<Seq<(int, Option<Mark>, Mark)>>, Ghost<Seq<Commit>>), StateError>)
    requires
        k < patchsets@.len(),
        old(writer).next_mark_spec() + patchsets@.len() - k < usize::MAX,
        from == last_logged(old(state).branch_log@, branch@, old(state).branch_log@.len() as int),
        old(state).file_revisions@ == frs@,
        branch_run(frs@, sv0@, patchsets@, from0@, next0@, k as int) == Some(
            (stored_view(old(state).patchsets@), old(writer).next_mark_spec(), from, sent@),
        ),
        sent_commits_ok(frs@, branch@, patchsets@, sent@, cs@),
        old(writer).output() == w0@ + sent_bytes(cs@, sent@, sent@.len() as int),
    ensures
        final(state).file_revisions == old(state).file_revisions,
        final(state).tag_log == old(state).tag_log,
        final(state).tag_marks == old(state).tag_marks,
        final(state).raw_marks == old(state).raw_marks,
        r is Err ==> branch_run(frs@, sv0@, patchsets@, from0@, next0@, patchsets@.len() as int) is None,
        r matches Err(e) ==> e is NoFileRevisionForID,
        r matches Ok((f, s2, c2)) ==> {
            &&& final(writer).next_mark_spec() + patchsets@.len() - (k + 1) < usize::MAX
            &&& f == last_logged(final(state).branch_log@, branch@, final(state).branch_log@.len() as int)
            &&& branch_run(frs@, sv0@, patchsets@, from0@, next0@, k + 1) == Some(
                (stored_view(final(state).patchsets@), final(writer).next_mark_spec(), f, s2@),
            )
            &&& sent_commits_ok(frs@, branch@, patchsets@, s2@, c2@)
            &&& final(writer).output() == w0@ + sent_bytes(c2@, s2@, s2@.len() as int)
        },
{
    let p = &patchsets[k];
    assert(p == patchsets@[k as int]);
    let ghost ps0 = state.patchsets@;
    let ghost wb = writer.output();
    let ghost nb = writer.next_mark_spec();
    let ghost fb = from;
    proof {
        lemma_run_next(frs@, sv0@, patchsets@, from0@, next0@, k as int, stored_view(ps0), nb, fb, sent@);
    }
    proof {
        reveal(sent_commits_ok);
    }
    match send_step(state, writer, branch, p, from) {
        Err(e) => {
            proof {
                lemma_run_none_sticks(frs@, sv0@, patchsets@, from0@, next0@, k + 1, patchsets@.len() as int);
            }
            Err(e)
        },
        Ok(f) => {
            let ghost mut sent2 = sent@;
            let ghost mut cs2 = cs@;
            proof {
                let (sv2, nx2, fr2, st) = step_spec(frs@, stored_view(ps0), *p, fb, nb)->0;
                match st {
                    None => {},
                    Some((pf, m)) => {
                        let c = choose|c: Commit|
                            patchset_commit_ok(frs@, branch@, *p, pf, c) && #[trigger] writer.output()
                                == wb + commit_wire(c, m);
                        sent2 = sent@.push((k as int, pf, m));
                        cs2 = cs@.push(c);
                        assert forall|j: int|
                            0 <= j < sent2.len() implies 0 <= (#[trigger] sent2[j]).0 < patchsets@.len()
                                && patchset_commit_ok(frs@, branch@, patchsets@[sent2[j].0], sent2[j].1, cs2[j]) by {
                            if j < sent@.len() {
                                assert(sent2[j] == sent@[j] && cs2[j] == cs@[j]);
                            }
                        }
                        lemma_sent_bytes_push(cs@, sent@, c, (k as int, pf, m));
                    },
                }
            }
            Ok((f, Ghost(sent2), Ghost(cs2)))
        },
    }
}

/// Sends a branch's patchsets in order: each one whose content was sent
/// before (on any branch) has that commit recorded as the branch's head and
/// sends nothing; each other one is sent as a commit on the previous head
/// and recorded. Then the branch ref is pointed at the head, which is
/// returned. Fails only where a patchset to be sent names an unknown file
/// revision.
#[verifier::rlimit(100)]
pub fn send_branch(state: &mut Manager, writer: &mut Writer, branch: &[u8], patchsets: &Vec<PatchSet>) -> (r: Result<Option<Mark>, StateError>)
    requires
        old(writer).next_mark_spec() + patchsets@.len() < usize::MAX,
    ensures
        match branch_run(
            old(state).file_revisions@,
            stored_view(old(state).patchsets@),
            patchsets@,
            last_logged(old(state).branch_log@, branch@, old(state).branch_log@.len() as int),
            old(writer).next_mark_spec(),
            patchsets@.len() as int,
        ) {
            None => r matches Err(e) && e is NoFileRevisionForID,
            Some((sv, nx, head, sent)) => {
                &&& r == Ok::<Option<Mark>, StateError>(head)
                &&& stored_view(final(state).patchsets@) == sv
                &&& final(writer).next_mark_spec() == nx
                &&& exists|cs: Seq<Commit>|
                    #[trigger] sent_commits_ok(old(state).file_revisions@, branch@, patchsets@, sent, cs)
                        && final(writer).output() == old(writer).output() + sent_bytes(
                        cs,
                        sent,
                        sent.len() as int,
                    ) + head_reset(branch@, head)
                &&& head == last_logged(final(state).branch_log@, branch@, final(state).branch_log@.len() as int)
            },
        },
        final(state).file_revisions == old(state).file_revisions,
        final(state).tag_log == old(state).tag_log,
        final(state).tag_marks == old(state).tag_marks,
        final(state).raw_marks == old(state).raw_marks,
{
    let ghost frs = state.file_revisions@;
    let ghost sv0 = stored_view(state.patchsets@);
    let ghost w0 = writer.output();
    let ghost next0 = writer.next_mark_spec();
    let mut from = state.get_last_patchset_mark_on_branch(branch);
    let ghost from0 = from;
    let ghost mut sent: Seq<(int, Option<Mark>, Mark)> = Seq::empty();
    let ghost mut cs: Seq<Commit> = Seq::empty();
    proof {
        lemma_sent_empty(frs, branch@, patchsets@);
        lemma_run_start(frs, sv0, patchsets@, from0, next0);
        lemma_sent_bytes_start(w0);
    }
    let mut k: usize = 0;
    while k < patchsets.len()
        invariant
            k <= patchsets@.len(),
            writer.next_mark_spec() + patchsets@.len() - k < usize::MAX,
            from == last_logged(state.branch_log@, branch@, state.branch_log@.len() as int),
            state.file_revisions == old(state).file_revisions,
            frs == old(state).file_revisions@,
            sv0 == stored_view(old(state).patchsets@),
            from0 == last_logged(old(state).branch_log@, branch@, old(state).branch_log@.len() as int),
            next0 == old(writer).next_mark_spec(),
            w0 == old(writer).output(),
            state.tag_log == old(state).tag_log,
            state.tag_marks == old(state).tag_marks,
            state.raw_marks == old(state).raw_marks,
            branch_run(frs, sv0, patchsets@, from0, next0, k as int) == Some(
                (stored_view(state.patchsets@), writer.next_mark_spec(), from, sent),
            ),
            sent_commits_ok(frs, branch@, patchsets@, sent, cs),
            writer.output() == w0 + sent_bytes(cs, sent, sent.len() as int),
        decreases patchsets@.len() - k,
    {
        let (f, Ghost(sent2), Ghost(cs2)) = match branch_step(
            state,
            writer,
            branch,
            patchsets,
            k,
            from,
            Ghost(frs),
            Ghost(sv0),
            Ghost(from0),
            Ghost(next0),
            Ghost(sent),
            Ghost(cs),
            Ghost(w0),
        ) {
            Ok(x) => x,
            Err(e) => {
                return Err(e);
            },
        };
        proof {
            sent = sent2;
            cs = cs2;
        }
        from = f;
        k = k + 1;
    }
    assert(k == patchsets@.len());
    let ghost wl = writer.output();
    reset_head(writer, branch, from);
    assert(writer.output() == w0 + sent_bytes(cs, sent, sent.len() as int) + head_reset(branch@, from));
    assert(branch_run(frs, sv0, patchsets@, from0, next0, patchsets@.len() as int) == Some(
        (stored_view(state.patchsets@), writer.next_mark_spec(), from, sent),
    ));
    assert(sent_commits_ok(frs, branch@, patchsets@, sent, cs));
    assert(sent_commits_ok(old(state).file_revisions@, branch@, patchsets@, sent, cs) && writer.output()
        == old(writer).output() + sent_bytes(cs, sent, sent.len() as int) + head_reset(branch@, from));
    assert(from == last_logged(state.branch_log@, branch@, state.branch_log@.len() as int));
    assert(branch_run(
        old(state).file_revisions@,
        stored_view(old(state).patchsets@),
        patchsets@,
        last_logged(old(state).branch_log@, branch@, old(state).branch_log@.len() as int),
        old(writer).next_mark_spec(),
        patchsets@.len() as int,
    ) == Some((stored_view(state.patchsets@), writer.next_mark_spec(), from, sent)));
    proof {
        let bs = branch_run(
            old(state).file_revisions@,
            stored_view(old(state).patchsets@),
            patchsets@,
            last_logged(old(state).branch_log@, branch@, old(state).branch_log@.len() as int),
            old(writer).next_mark_spec(),
            patchsets@.len() as int,
        )->0;
        assert(bs.3 == sent && bs.2 == from);
        assert(sent_commits_ok(old(state).file_revisions@, branch@, patchsets@, bs.3, cs));
        assert(writer.output() == old(writer).output() + sent_bytes(cs, bs.3, bs.3.len() as int)
            + head_reset(branch@, bs.2));
    }
    Ok(from)
}

proof fn lemma_sent_bytes_push(cs: Seq<Commit>, sent: Seq<(int, Option<Mark>, Mark)>, c: Commit, e: (int, Option<Mark>, Mark))
    requires
        cs.len() == sent.len(),
    ensures
        sent_bytes(cs.push(c), sent.push(e), sent.len() as int + 1) == sent_bytes(cs, sent, sent.len() as int)
            + commit_wire(c, e.2),
{
    lemma_sent_bytes_prefix(cs, sent, c, e, sent.len() as int);
    reveal(sent_bytes);
    assert(cs.push(c)[sent.len() as int] == c);
    assert(sent.push(e)[sent.len() as int] == e);
}

proof fn lemma_sent_bytes_start(w: Seq<u8>)
    ensures
        w + sent_bytes(Seq::empty(), Seq::empty(), 0) == w,
{
    reveal(sent_bytes);
    assert(w + Seq::<u8>::empty() =~= w);
}

proof fn lemma_sent_empty(frs: Seq<FileRevision>, branch: Seq<u8>, pts: Seq<PatchSet>)
    ensures
        sent_commits_ok(frs, branch, pts, Seq::empty(), Seq::empty()),
{
    reveal(sent_commits_ok);
}

proof fn lemma_sent_bytes_prefix(
    cs: Seq<Commit>,
    sent: Seq<(int, Option<Mark>, Mark)>,
    c: Commit,
    e: (int, Option<Mark>, Mark),
    k: int,
)
    requires
        0 <= k <= cs.len(),
        k <= sent.len(),
    ensures
        sent_bytes(cs.push(c), sent.push(e), k) == sent_bytes(cs, sent, k),
    decreases k,
{
    reveal(sent_bytes);
    if k > 0 {
        lemma_sent_bytes_prefix(cs, sent, c, e, k - 1);
        assert(cs.push(c)[k - 1] == cs[k - 1]);
        assert(sent.push(e)[k - 1] == sent[k - 1]);
    }
}

} // verus!
