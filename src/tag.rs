//! Tags as synthetic commits: each CVS tag becomes a commit holding exactly
//! the tagged file revisions, re-made only when that content changes.
use vstd::prelude::*;
use crate::bytes::{append_bytes, copy_bytes};
use crate::fast_import::{Commit, FileCommand, Identity, Mark, Mode, Writer, commit_wire, mark_line_wire};
use crate::import::command_view;
use crate::state::{Manager, StateError, last_logged, latest_content, latest_with, mark_from, tag_ids};
use vstd::string::StringSliceAdditionalSpecFns;

verus! {

/// What to do for a tag.
pub enum TagStep {
    /// The tag selects no file revision.
    Empty,
    /// The tag's last synthetic commit already holds this content.
    Unchanged,
    /// Send this commit, then record it as a patchset of `ids` at `time` and
    /// as the tag's mark, and point the tag at it.
    Send { commit: Commit, ids: Vec<u64>, time: u64 },
}

/// `refs/heads/tags/` and the tag name.
pub open spec fn tag_branch_ref(tag: Seq<u8>) -> Seq<u8> {
    "refs/heads/tags/".spec_bytes() + tag
}

/// The message of a tag's synthetic commit.
pub open spec fn tag_message(tag: Seq<u8>) -> Seq<u8> {
    "Fake commit for tag ".spec_bytes() + tag + ".".spec_bytes()
}

/// The latest time among the first `n` file revisions of the tag.
pub open spec fn max_time(s: Manager, ids: Seq<u64>, n: int) -> u64
    decreases n,
{
    if n <= 0 {
        0
    } else {
        let prev = max_time(s, ids, n - 1);
        let t = s.file_revisions@[ids[n - 1] as int].time;
        if t > prev {
            t
        } else {
            prev
        }
    }
}

/// The parent chosen from the file content: among the latest patchsets of
/// the first `n` file revisions, the one with the latest time (the first of
/// equal times), as its mark and time.
pub open spec fn content_parent(s: Manager, ids: Seq<u64>, n: int) -> Option<(Mark, u64)>
    decreases n,
{
    if n <= 0 {
        None
    } else {
        let prev = content_parent(s, ids, n - 1);
        match latest_with(s.patchsets@, ids[n - 1], s.patchsets@.len() as int) {
            None => prev,
            Some(j) => {
                let p = s.patchsets@[j];
                match prev {
                    None => Some((p.mark, p.time)),
                    Some((m, t)) => if t < p.time {
                        Some((p.mark, p.time))
                    } else {
                        prev
                    },
                }
            },
        }
    }
}

/// The file commands after the leading `deleteall`: one per file revision.
pub open spec fn tag_commands(s: Manager, ids: Seq<u64>) -> Seq<(Option<Mark>, Seq<u8>)> {
    ids.map_values(|id: u64| (s.file_revisions@[id as int].mark, s.file_revisions@[id as int].path@))
}

pub open spec fn ids_in_range(s: Manager, ids: Seq<u64>) -> bool {
    forall|k: int| 0 <= k < ids.len() ==> (#[trigger] ids[k]) < s.file_revisions@.len()
}

/// Which way a tag goes, by the state before it is sent.
pub enum TagOutcome {
    Empty,
    MissingPatchSet(Mark),
    Unchanged,
    UnknownId,
    Send,
}

pub open spec fn tag_outcome(s: Manager, tag: Seq<u8>) -> TagOutcome {
    let ids = tag_ids(s.tag_log@, tag, s.tag_log@.len() as int);
    let prior = last_logged(s.tag_marks@, tag, s.tag_marks@.len() as int);
    if ids.len() == 0 {
        TagOutcome::Empty
    } else if prior matches Some(m) && mark_from(s.patchsets@, m, 0) is None {
        TagOutcome::MissingPatchSet(prior->0)
    } else if prior is Some && s.patchsets@[mark_from(s.patchsets@, prior->0, 0)->0].file_revisions@ == ids {
        TagOutcome::Unchanged
    } else if !ids_in_range(s, ids) {
        TagOutcome::UnknownId
    } else {
        TagOutcome::Send
    }
}

/// The synthetic commit of a tag: on `refs/heads/tags/<tag>`, by the
/// identity, deleting every file and then adding each tagged revision;
/// parented on the tag's previous synthetic commit, else on the latest
/// patchset that holds one of its file revisions.
pub open spec fn tag_commit_ok(s: Manager, tag: Seq<u8>, identity: Identity, commit: Commit) -> bool {
    let ids = tag_ids(s.tag_log@, tag, s.tag_log@.len() as int);
    let prior = last_logged(s.tag_marks@, tag, s.tag_marks@.len() as int);
    &&& commit.branch_ref@ == tag_branch_ref(tag)
    &&& commit.message@ == tag_message(tag)
    &&& commit.author is None
    &&& commit.committer.email@ == identity.email@
    &&& (commit.committer.name is Some <==> identity.name is Some)
    &&& (commit.committer.name matches Some(n) ==> n@ == identity.name->0@)
    &&& commit.committer.when == identity.when
    &&& commit.merge is None
    &&& commit.from == match prior {
        Some(m) => Some(m),
        None => match content_parent(s, ids, ids.len() as int) {
            Some((m, _)) => Some(m),
            None => None,
        },
    }
    &&& commit.commands@.len() == ids.len() + 1
    &&& commit.commands@[0] is DeleteAll
    &&& commit.commands@.drop_first().map_values(|x: FileCommand| command_view(x)) == tag_commands(s, ids)
}

fn copy_identity(i: &Identity) -> (r: Identity)
    ensures
        r.name is Some <==> i.name is Some,
        r.name matches Some(n) ==> n@ == i.name->0@,
        r.email@ == i.email@,
        r.when == i.when,
{
    Identity {
        name: match &i.name {
            Some(n) => Some(copy_bytes(n.as_slice())),
            None => None,
        },
        email: copy_bytes(i.email.as_slice()),
        when: i.when,
    }
}

fn ids_equal(a: &Vec<u64>, b: &Vec<u64>) -> (r: bool)
    ensures
        r == (a@ == b@),
{
    if a.len() != b.len() {
        return false;
    }
    let mut i: usize = 0;
    while i < a.len()
        invariant
            a@.len() == b@.len(),
            i <= a@.len(),
            forall|j: int| 0 <= j < i ==> a@[j] == b@[j],
        decreases a@.len() - i,
    {
        if a[i] != b[i] {
            return false;
        }
        i = i + 1;
    }
    assert(a@ =~= b@);
    true
}

impl Manager {
    /// Decides what to do for a tag. Its synthetic commit deletes every file
    /// and then adds each tagged file revision (or deletes it, for a dead
    /// revision); it is dated at the latest of their times. A tag whose last
    /// synthetic commit holds the same file revisions is left alone; one that
    /// changed is parented on that commit; a new one on the latest patchset
    /// that holds one of its file revisions.
    pub fn plan_tag(&self, tag: &[u8], identity: &Identity) -> (r: Result<TagStep, StateError>)
        ensures
            ({
                let ids = tag_ids(self.tag_log@, tag@, self.tag_log@.len() as int);
                match tag_outcome(*self, tag@) {
                    TagOutcome::Empty => r matches Ok(TagStep::Empty),
                    TagOutcome::MissingPatchSet(m) => r == Err::<TagStep, StateError>(
                        StateError::NoPatchSetForMark(m.0),
                    ),
                    TagOutcome::Unchanged => r matches Ok(TagStep::Unchanged),
                    TagOutcome::UnknownId => r matches Err(StateError::NoFileRevisionForID(_)),
                    TagOutcome::Send => r matches Ok(TagStep::Send { commit, ids: v, time }) && v@ == ids
                        && time == max_time(*self, ids, ids.len() as int) && tag_commit_ok(
                        *self,
                        tag@,
                        *identity,
                        commit,
                    ),
                }
            }),
    {
        let ids = match self.get_file_revisions_for_tag(tag) {
            Ok(ids) => ids,
            Err(_) => {
                return Ok(TagStep::Empty);
            },
        };
        let prior = self.get_mark_for_tag(tag);
        let mut from: Option<Mark> = None;
        match prior {
            Some(mark) => {
                let p = match self.get_patchset_from_mark(mark) {
                    Ok(p) => p,
                    Err(e) => {
                        return Err(e);
                    },
                };
                if ids_equal(&p.file_revisions, &ids) {
                    return Ok(TagStep::Unchanged);
                }
                from = Some(mark);
            },
            None => {},
        }
        let mut commands: Vec<FileCommand> = Vec::new();
        commands.push(FileCommand::DeleteAll);
        let mut time: u64 = 0;
        let mut parent: Option<(Mark, u64)> = None;
        let mut k: usize = 0;
        while k < ids.len()
            invariant
                k <= ids@.len(),
                ids@ == tag_ids(self.tag_log@, tag@, self.tag_log@.len() as int),
                prior == last_logged(self.tag_marks@, tag@, self.tag_marks@.len() as int),
                from == prior,
                ids@.len() > 0,
                prior matches Some(m) ==> mark_from(self.patchsets@, m, 0) is Some
                    && self.patchsets@[mark_from(self.patchsets@, m, 0)->0].file_revisions@ != ids@,
                ids_in_range(*self, ids@.subrange(0, k as int)),
                commands@.len() == k + 1,
                commands@[0] is DeleteAll,
                commands@.drop_first().map_values(|x: FileCommand| command_view(x)) == tag_commands(
                    *self,
                    ids@.subrange(0, k as int),
                ),
                time == max_time(*self, ids@, k as int),
                parent == content_parent(*self, ids@, k as int),
            decreases ids@.len() - k,
        {
            let id = ids[k];
            let ghost sub = ids@.subrange(0, k + 1);
            assert(sub.drop_last() =~= ids@.subrange(0, k as int));
            let fr = match self.get_file_revision_by_id(id) {
                Ok(fr) => fr,
                Err(e) => {
                    assert(!ids_in_range(*self, ids@)) by {
                        assert(ids@[k as int] == id);
                    }
                    proof {
                        lemma_range_prefix(*self, ids@);
                    }
                    return Err(e);
                },
            };
            let path = copy_bytes(fr.path.as_slice());
            let cmd = match fr.mark {
                Some(mark) => FileCommand::Modify { mode: Mode::Normal, mark, path },
                None => FileCommand::Delete { path },
            };
            let ghost c0 = commands@;
            commands.push(cmd);
            proof {
                let prefix = ids@.subrange(0, k as int);
                assert(commands@.drop_first() =~= c0.drop_first().push(cmd));
                assert(command_view(cmd) == (fr.mark, fr.path@));
                assert(sub =~= prefix.push(id));
                assert(tag_commands(*self, sub) =~= tag_commands(*self, prefix).push(
                    (self.file_revisions@[id as int].mark, self.file_revisions@[id as int].path@),
                ));
                assert(c0.drop_first().push(cmd).map_values(|x: FileCommand| command_view(x))
                    =~= c0.drop_first().map_values(|x: FileCommand| command_view(x)).push(
                    command_view(cmd),
                ));
            }
            if fr.time > time {
                time = fr.time;
            }
            match self.get_last_patchset_for_file_revision(id) {
                None => {},
                Some((m, p)) => {
                    match parent {
                        None => {
                            parent = Some((m, p.time));
                        },
                        Some((_, t)) => {
                            if t < p.time {
                                parent = Some((m, p.time));
                            }
                        },
                    }
                },
            }
            k = k + 1;
        }
        assert(ids@.subrange(0, k as int) =~= ids@);
        if from.is_none() {
            from = match parent {
                Some((m, _)) => Some(m),
                None => None,
            };
        }
        let mut branch_ref: Vec<u8> = Vec::new();
        append_bytes(&mut branch_ref, "refs/heads/tags/".as_bytes());
        append_bytes(&mut branch_ref, tag);
        let mut message: Vec<u8> = Vec::new();
        append_bytes(&mut message, "Fake commit for tag ".as_bytes());
        append_bytes(&mut message, tag);
        append_bytes(&mut message, ".".as_bytes());
        let commit = Commit {
            branch_ref,
            author: None,
            committer: copy_identity(identity),
            message,
            from,
            merge: None,
            commands,
        };
        Ok(TagStep::Send { commit, ids, time })
    }
}

/// A list whose ids are all known has a prefix whose ids are all known.
proof fn lemma_range_prefix(s: Manager, ids: Seq<u64>)
    ensures
        forall|k: int|
            0 <= k <= ids.len() && ids_in_range(s, ids) ==> ids_in_range(s, #[trigger] ids.subrange(0, k)),
{
}

/// `refs/tags/` and the tag name.
pub open spec fn tag_ref(tag: Seq<u8>) -> Seq<u8> {
    "refs/tags/".spec_bytes() + tag
}

/// Carries out what `plan_tag` decides: a new synthetic commit is sent,
/// recorded as a patchset of the tag's file revisions and as the tag's mark,
/// and the tag is pointed at it. Returns the new commit's mark, or `None`
/// where nothing was to be done (and nothing was changed).
pub fn send_tag(state: &mut Manager, writer: &mut Writer, tag: &[u8], identity: &Identity) -> (r: Result<Option<Mark>, StateError>)
    requires
        old(writer).next_mark_spec() < usize::MAX,
    ensures
        ({
            let ids = tag_ids(old(state).tag_log@, tag@, old(state).tag_log@.len() as int);
            let m = Mark(old(writer).next_mark_spec());
            match tag_outcome(*old(state), tag@) {
                TagOutcome::Empty | TagOutcome::Unchanged => r == Ok::<Option<Mark>, StateError>(None)
                    && *final(state) == *old(state) && *final(writer) == *old(writer),
                TagOutcome::MissingPatchSet(pm) => r == Err::<Option<Mark>, StateError>(
                    StateError::NoPatchSetForMark(pm.0),
                ) && *final(state) == *old(state) && *final(writer) == *old(writer),
                TagOutcome::UnknownId => r matches Err(StateError::NoFileRevisionForID(_))
                    && *final(state) == *old(state) && *final(writer) == *old(writer),
                TagOutcome::Send => {
                    &&& r == Ok::<Option<Mark>, StateError>(Some(m))
                    &&& final(writer).next_mark_spec() == old(writer).next_mark_spec() + 1
                    &&& exists|c: Commit|
                        tag_commit_ok(*old(state), tag@, *identity, c) && #[trigger] final(writer).output()
                            == old(writer).output() + commit_wire(c, m) + "reset ".spec_bytes()
                            + tag_ref(tag@) + "\n".spec_bytes() + mark_line_wire(
                            "from ".spec_bytes(),
                            Some(m),
                        )
                    &&& final(state).patchsets@.len() == old(state).patchsets@.len() + 1
                    &&& final(state).patchsets@.drop_last() == old(state).patchsets@
                    &&& final(state).patchsets@.last().mark == m
                    &&& final(state).patchsets@.last().time == max_time(*old(state), ids, ids.len() as int)
                    &&& final(state).patchsets@.last().file_revisions@ == ids
                    &&& final(state).tag_marks@ == old(state).tag_marks@.push(final(state).tag_marks@.last())
                    &&& final(state).tag_marks@.last().0@ == tag@
                    &&& final(state).tag_marks@.last().1 == m
                    &&& last_logged(final(state).tag_marks@, tag@, final(state).tag_marks@.len() as int) == Some(m)
                    &&& final(state).branch_log@.len() == old(state).branch_log@.len() + 1
                    &&& final(state).file_revisions == old(state).file_revisions
                    &&& final(state).tag_log == old(state).tag_log
                    &&& final(state).raw_marks == old(state).raw_marks
                },
            }
        }),
{
    match state.plan_tag(tag, identity) {
        Err(e) => Err(e),
        Ok(TagStep::Empty) => Ok(None),
        Ok(TagStep::Unchanged) => Ok(None),
        Ok(TagStep::Send { commit, ids, time }) => {
            let ghost s0 = *state;
            let ghost w0 = writer.output();
            let mark = writer.commit(&commit);
            state.add_patchset(mark, tag, time, ids.as_slice());
            let ghost s1 = *state;
            state.add_tag_mark(tag, mark);
            let mut r: Vec<u8> = Vec::new();
            append_bytes(&mut r, "refs/tags/".as_bytes());
            append_bytes(&mut r, tag);
            writer.reset(r.as_slice(), Some(mark));
            proof {
                assert(state.tag_marks@ =~= s1.tag_marks@.push(state.tag_marks@.last()));
                assert(writer.output() =~= w0 + commit_wire(commit, mark) + "reset ".spec_bytes()
                    + tag_ref(tag@) + "\n".spec_bytes() + mark_line_wire("from ".spec_bytes(), Some(mark)));
            }
            Ok(Some(mark))
        },
    }
}

} // verus!
