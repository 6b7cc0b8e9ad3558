//! The importer's state: file revisions, patchsets with their marks and
//! branches, tags, and the raw mark file, kept in memory between runs.
use vstd::prelude::*;
use crate::bytes::copy_bytes;
use crate::detector::bytes_eq;
use crate::fast_import::Mark;
use crate::ed::lines_view;

verus! {

/// Lookup failures of the state.
#[derive(Debug, Clone, Copy, PartialEq, Eq)]
pub enum StateError {
    NoFileRevisionForID(u64),
    NoFileRevisionForKey,
    NoFileRevisionForMark(usize),
    NoPatchSetForMark(usize),
    NoTag,
}

/// One historical version of one file.
#[derive(Debug, Clone)]
pub struct FileRevision {
    pub path: Vec<u8>,
    pub revision: Vec<u8>,
    /// The mark of the blob, or `None` where the revision deletes the file.
    pub mark: Option<Mark>,
    pub branches: Vec<Vec<u8>>,
    pub author: Vec<u8>,
    pub message: Vec<u8>,
    pub time: u64,
}

/// A patchset that was sent as a commit: its mark, its time, and the file
/// revisions it holds.
#[derive(Debug, Clone)]
pub struct StoredPatchSet {
    pub mark: Mark,
    pub time: u64,
    pub file_revisions: Vec<u64>,
}

/// The in-memory state. File revisions are identified by their index; the
/// branch and tag records are logs, read from the end.
#[derive(Debug, Clone)]
pub struct Manager {
    pub file_revisions: Vec<FileRevision>,
    pub patchsets: Vec<StoredPatchSet>,
    /// `(branch, mark)`: the mark became the branch's head.
    pub branch_log: Vec<(Vec<u8>, Mark)>,
    /// `(tag, file revision id)`, in the order they were added.
    pub tag_log: Vec<(Vec<u8>, u64)>,
    /// `(tag, mark)`: the synthetic commit made for the tag.
    pub tag_marks: Vec<(Vec<u8>, Mark)>,
    pub raw_marks: Vec<u8>,
}

pub open spec fn key_matches(fr: FileRevision, path: Seq<u8>, revision: Seq<u8>) -> bool {
    fr.path@ == path && fr.revision@ == revision
}

/// Whether two id lists hold the same ids.
pub open spec fn same_ids(a: Seq<u64>, b: Seq<u64>) -> bool {
    a.to_set() == b.to_set()
}

/// The last of the first `n` patchsets with this time and these ids: a
/// later patchset with the same content takes its place in the index.
pub open spec fn latest_content(ps: Seq<StoredPatchSet>, time: u64, ids: Seq<u64>, n: int) -> Option<int>
    decreases n,
{
    if n <= 0 {
        None
    } else if ps[n - 1].time == time && same_ids(ps[n - 1].file_revisions@, ids) {
        Some(n - 1)
    } else {
        latest_content(ps, time, ids, n - 1)
    }
}

/// The first patchset from index `i` on that was sent as `m`.
pub open spec fn mark_from(ps: Seq<StoredPatchSet>, m: Mark, i: int) -> Option<int>
    decreases ps.len() - i,
{
    if i < 0 || i >= ps.len() {
        None
    } else if ps[i].mark == m {
        Some(i)
    } else {
        mark_from(ps, m, i + 1)
    }
}

/// The last mark logged for `name` among the first `n` entries.
pub open spec fn last_logged(log: Seq<(Vec<u8>, Mark)>, name: Seq<u8>, n: int) -> Option<Mark>
    decreases n,
{
    if n <= 0 {
        None
    } else if log[n - 1].0@ == name {
        Some(log[n - 1].1)
    } else {
        last_logged(log, name, n - 1)
    }
}

/// The ids logged for `tag` among the first `n` entries, in order.
pub open spec fn tag_ids(log: Seq<(Vec<u8>, u64)>, tag: Seq<u8>, n: int) -> Seq<u64>
    decreases n,
{
    if n <= 0 {
        Seq::empty()
    } else if log[n - 1].0@ == tag {
        insert_sorted(tag_ids(log, tag, n - 1), log[n - 1].1)
    } else {
        tag_ids(log, tag, n - 1)
    }
}

/// `x` put into the ascending sequence `s`, where it is not there yet.
pub open spec fn insert_sorted(s: Seq<u64>, x: u64) -> Seq<u64>
    decreases s.len(),
{
    if s.len() == 0 {
        seq![x]
    } else if x < s[0] {
        seq![x] + s
    } else if x == s[0] {
        s
    } else {
        seq![s[0]] + insert_sorted(s.drop_first(), x)
    }
}

/// Puts `x` into the ascending list, unless it is there.
fn insert_id(v: &mut Vec<u64>, x: u64)
    ensures
        final(v)@ == insert_sorted(old(v)@, x),
{
    let n = v.len();
    let mut i: usize = 0;
    assert(v@.subrange(0, 0) + v@.subrange(0, n as int) =~= v@);
    assert(v@.subrange(0, n as int) =~= v@);
    assert(v@.subrange(0, 0) + insert_sorted(v@, x) =~= insert_sorted(v@, x));
    while i < n && v[i] < x
        invariant
            n == v@.len(),
            v@ == old(v)@,
            i <= n,
            insert_sorted(v@, x) == v@.subrange(0, i as int) + insert_sorted(v@.subrange(i as int, n as int), x),
        decreases n - i,
    {
        let ghost sub = v@.subrange(i as int, n as int);
        assert(sub.drop_first() =~= v@.subrange(i + 1, n as int));
        assert(v@.subrange(0, i + 1) =~= v@.subrange(0, i as int) + seq![v@[i as int]]);
        assert(v@.subrange(0, i as int) + (seq![sub[0]] + insert_sorted(sub.drop_first(), x)) =~= v@.subrange(
            0,
            i + 1,
        ) + insert_sorted(v@.subrange(i + 1, n as int), x));
        i = i + 1;
    }
    let ghost sub = v@.subrange(i as int, n as int);
    if i == n {
        v.push(x);
        assert(v@ =~= old(v)@.subrange(0, n as int) + seq![x]);
    } else if v[i] == x {
        assert(old(v)@.subrange(0, i as int) + sub =~= old(v)@);
    } else {
        v.insert(i, x);
        assert(v@ =~= old(v)@.subrange(0, i as int) + (seq![x] + sub));
    }
}

/// The distinct tag names among the first `n` entries, in the order first
/// logged.
pub open spec fn tag_names(log: Seq<(Vec<u8>, u64)>, n: int) -> Seq<Seq<u8>>
    decreases n,
{
    if n <= 0 {
        Seq::empty()
    } else {
        let prev = tag_names(log, n - 1);
        if prev.contains(log[n - 1].0@) {
            prev
        } else {
            prev.push(log[n - 1].0@)
        }
    }
}

/// The marks of the first `n` patchsets that hold `id`, in order.
pub open spec fn marks_with(ps: Seq<StoredPatchSet>, id: u64, n: int) -> Seq<Mark>
    decreases n,
{
    if n <= 0 {
        Seq::empty()
    } else if ps[n - 1].file_revisions@.contains(id) {
        marks_with(ps, id, n - 1).push(ps[n - 1].mark)
    } else {
        marks_with(ps, id, n - 1)
    }
}

/// Among the first `n` patchsets, the index of the latest one holding `id`
/// (the earliest of equal times).
pub open spec fn latest_with(ps: Seq<StoredPatchSet>, id: u64, n: int) -> Option<int>
    decreases n,
{
    if n <= 0 {
        None
    } else {
        let prev = latest_with(ps, id, n - 1);
        if ps[n - 1].file_revisions@.contains(id) {
            match prev {
                None => Some(n - 1),
                Some(j) => if ps[j].time < ps[n - 1].time {
                    Some(n - 1)
                } else {
                    Some(j)
                },
            }
        } else {
            prev
        }
    }
}

impl Manager {
    /// An empty state.
    pub fn new() -> (r: Manager)
        ensures
            r.file_revisions@.len() == 0,
            r.patchsets@.len() == 0,
            r.branch_log@.len() == 0,
            r.tag_log@.len() == 0,
            r.tag_marks@.len() == 0,
            r.raw_marks@.len() == 0,
    {
        Manager {
            file_revisions: Vec::new(),
            patchsets: Vec::new(),
            branch_log: Vec::new(),
            tag_log: Vec::new(),
            tag_marks: Vec::new(),
            raw_marks: Vec::new(),
        }
    }

    fn find_key(&self, path: &[u8], revision: &[u8]) -> (r: Option<usize>)
        ensures
            match r {
                Some(i) => i < self.file_revisions@.len() && key_matches(
                    self.file_revisions@[i as int],
                    path@,
                    revision@,
                ) && forall|j: int|
                    0 <= j < i ==> !key_matches(#[trigger] self.file_revisions@[j], path@, revision@),
                None => forall|j: int|
                    0 <= j < self.file_revisions@.len() ==> !key_matches(
                        #[trigger] self.file_revisions@[j],
                        path@,
                        revision@,
                    ),
            },
    {
        let mut i: usize = 0;
        while i < self.file_revisions.len()
            invariant
                i <= self.file_revisions@.len(),
                forall|j: int|
                    0 <= j < i ==> !key_matches(#[trigger] self.file_revisions@[j], path@, revision@),
            decreases self.file_revisions@.len() - i,
        {
            let fr = &self.file_revisions[i];
            if bytes_eq(fr.path.as_slice(), path) && bytes_eq(fr.revision.as_slice(), revision) {
                return Some(i);
            }
            i = i + 1;
        }
        None
    }

    /// Records a file revision and returns its id. A key that is already
    /// known keeps its first id, and the state is left as it was.
    pub fn add_file_revision(
        &mut self,
        path: Vec<u8>,
        revision: Vec<u8>,
        mark: Option<Mark>,
        branches: Vec<Vec<u8>>,
        author: Vec<u8>,
        message: Vec<u8>,
        time: u64,
    ) -> (r: u64)
        requires
            old(self).file_revisions@.len() < u64::MAX,
        ensures
            (exists|j: int|
                0 <= j < old(self).file_revisions@.len() && key_matches(
                    #[trigger] old(self).file_revisions@[j],
                    path@,
                    revision@,
                )) ==> {
                &&& *final(self) == *old(self)
                &&& r < old(self).file_revisions@.len()
                &&& key_matches(old(self).file_revisions@[r as int], path@, revision@)
                &&& forall|j: int|
                    0 <= j < r ==> !key_matches(#[trigger] old(self).file_revisions@[j], path@, revision@)
            },
            (forall|j: int|
                0 <= j < old(self).file_revisions@.len() ==> !key_matches(
                    #[trigger] old(self).file_revisions@[j],
                    path@,
                    revision@,
                )) ==> {
                &&& r == old(self).file_revisions@.len()
                &&& final(self).file_revisions@ == old(self).file_revisions@.push(
                    FileRevision { path, revision, mark, branches, author, message, time },
                )
                &&& final(self).patchsets == old(self).patchsets
                &&& final(self).branch_log == old(self).branch_log
                &&& final(self).tag_log == old(self).tag_log
                &&& final(self).tag_marks == old(self).tag_marks
                &&& final(self).raw_marks == old(self).raw_marks
            },
    {
        match self.find_key(path.as_slice(), revision.as_slice()) {
            Some(i) => i as u64,
            None => {
                let id = self.file_revisions.len() as u64;
                self.file_revisions.push(
                    FileRevision { path, revision, mark, branches, author, message, time },
                );
                id
            },
        }
    }

    /// The file revision with this key.
    pub fn get_file_revision(&self, path: &[u8], revision: &[u8]) -> (r: Result<&FileRevision, StateError>)
        ensures
            match r {
                Ok(fr) => exists|j: int|
                    0 <= j < self.file_revisions@.len() && key_matches(
                        #[trigger] self.file_revisions@[j],
                        path@,
                        revision@,
                    ) && self.file_revisions@[j] == *fr,
                Err(e) => e == StateError::NoFileRevisionForKey && forall|j: int|
                    0 <= j < self.file_revisions@.len() ==> !key_matches(
                        #[trigger] self.file_revisions@[j],
                        path@,
                        revision@,
                    ),
            },
    {
        match self.find_key(path, revision) {
            Some(i) => Ok(&self.file_revisions[i]),
            None => Err(StateError::NoFileRevisionForKey),
        }
    }

    /// The file revision with this id.
    pub fn get_file_revision_by_id(&self, id: u64) -> (r: Result<&FileRevision, StateError>)
        ensures
            id < self.file_revisions@.len() ==> (r matches Ok(fr) && *fr
                == self.file_revisions@[id as int]),
            id >= self.file_revisions@.len() ==> (r matches Err(e) && e
                == StateError::NoFileRevisionForID(id)),
    {
        if id < self.file_revisions.len() as u64 {
            Ok(&self.file_revisions[id as usize])
        } else {
            Err(StateError::NoFileRevisionForID(id))
        }
    }

    /// The first file revision whose blob is `mark`, with its id.
    pub fn get_file_revision_from_mark(&self, mark: Mark) -> (r: Result<(u64, &FileRevision), StateError>)
        ensures
            match r {
                Ok((id, fr)) => id < self.file_revisions@.len() && *fr == self.file_revisions@[id as int]
                    && fr.mark == Some(mark) && forall|j: int|
                    0 <= j < id ==> (#[trigger] self.file_revisions@[j]).mark != Some(mark),
                Err(e) => e == StateError::NoFileRevisionForMark(mark.0) && forall|j: int|
                    0 <= j < self.file_revisions@.len() ==> (#[trigger] self.file_revisions@[j]).mark
                        != Some(mark),
            },
    {
        let mut i: usize = 0;
        while i < self.file_revisions.len()
            invariant
                i <= self.file_revisions@.len(),
                forall|j: int| 0 <= j < i ==> (#[trigger] self.file_revisions@[j]).mark != Some(mark),
            decreases self.file_revisions@.len() - i,
        {
            match self.file_revisions[i].mark {
                Some(m) => {
                    if m.0 == mark.0 {
                        return Ok((i as u64, &self.file_revisions[i]));
                    }
                },
                None => {},
            }
            i = i + 1;
        }
        Err(StateError::NoFileRevisionForMark(mark.0))
    }

    /// Records a patchset sent as the commit `mark` on `branch`.
    pub fn add_patchset(&mut self, mark: Mark, branch: &[u8], time: u64, file_revisions: &[u64])
        ensures
            final(self).patchsets@.len() == old(self).patchsets@.len() + 1,
            final(self).patchsets@.drop_last() == old(self).patchsets@,
            final(self).patchsets@.last().mark == mark,
            final(self).patchsets@.last().time == time,
            final(self).patchsets@.last().file_revisions@ == file_revisions@,
            final(self).branch_log@.len() == old(self).branch_log@.len() + 1,
            final(self).branch_log@.drop_last() == old(self).branch_log@,
            final(self).branch_log@.last().0@ == branch@,
            final(self).branch_log@.last().1 == mark,
            final(self).file_revisions == old(self).file_revisions,
            final(self).tag_log == old(self).tag_log,
            final(self).tag_marks == old(self).tag_marks,
            final(self).raw_marks == old(self).raw_marks,
    {
        let mut ids: Vec<u64> = Vec::new();
        let mut i: usize = 0;
        while i < file_revisions.len()
            invariant
                i <= file_revisions@.len(),
                ids@ == file_revisions@.subrange(0, i as int),
            decreases file_revisions@.len() - i,
        {
            ids.push(file_revisions[i]);
            i = i + 1;
        }
        assert(ids@ =~= file_revisions@);
        self.patchsets.push(StoredPatchSet { mark, time, file_revisions: ids });
        self.branch_log.push((copy_bytes(branch), mark));
        assert(self.patchsets@.drop_last() =~= old(self).patchsets@);
        assert(self.branch_log@.drop_last() =~= old(self).branch_log@);
    }

    /// Records that `branch` now has the already-sent commit `mark` as its
    /// head.
    pub fn add_branch_to_patchset_mark(&mut self, mark: Mark, branch: &[u8])
        ensures
            final(self).branch_log@ == old(self).branch_log@.push((final(self).branch_log@.last().0, mark)),
            final(self).branch_log@.last().0@ == branch@,
            final(self).file_revisions == old(self).file_revisions,
            final(self).patchsets == old(self).patchsets,
            final(self).tag_log == old(self).tag_log,
            final(self).tag_marks == old(self).tag_marks,
            final(self).raw_marks == old(self).raw_marks,
    {
        self.branch_log.push((copy_bytes(branch), mark));
    }

    /// The head mark of `branch`, if any commit was recorded on it.
    pub fn get_last_patchset_mark_on_branch(&self, branch: &[u8]) -> (r: Option<Mark>)
        ensures
            r == last_logged(self.branch_log@, branch@, self.branch_log@.len() as int),
    {
        let mut n = self.branch_log.len();
        while n > 0
            invariant
                n <= self.branch_log@.len(),
                last_logged(self.branch_log@, branch@, self.branch_log@.len() as int) == last_logged(
                    self.branch_log@,
                    branch@,
                    n as int,
                ),
            decreases n,
        {
            if bytes_eq(self.branch_log[n - 1].0.as_slice(), branch) {
                return Some(self.branch_log[n - 1].1);
            }
            n = n - 1;
        }
        None
    }

    /// The mark of the patchset last sent with this time and the same set
    /// of file revisions, if any.
    pub fn get_mark_from_patchset_content(&self, time: u64, file_revisions: &[u64]) -> (r: Option<Mark>)
        ensures
            match latest_content(self.patchsets@, time, file_revisions@, self.patchsets@.len() as int) {
                None => r is None,
                Some(i) => r == Some(self.patchsets@[i].mark),
            },
    {
        let mut n = self.patchsets.len();
        while n > 0
            invariant
                n <= self.patchsets@.len(),
                latest_content(self.patchsets@, time, file_revisions@, self.patchsets@.len() as int)
                    == latest_content(self.patchsets@, time, file_revisions@, n as int),
            decreases n,
        {
            let p = &self.patchsets[n - 1];
            if p.time == time && same_id_set(p.file_revisions.as_slice(), file_revisions) {
                return Some(p.mark);
            }
            n = n - 1;
        }
        None
    }

    /// The first patchset sent as `mark`.
    pub fn get_patchset_from_mark(&self, mark: Mark) -> (r: Result<&StoredPatchSet, StateError>)
        ensures
            match mark_from(self.patchsets@, mark, 0) {
                Some(j) => r matches Ok(p) && *p == self.patchsets@[j],
                None => r == Err::<&StoredPatchSet, StateError>(StateError::NoPatchSetForMark(mark.0)),
            },
    {
        let mut i: usize = 0;
        while i < self.patchsets.len()
            invariant
                i <= self.patchsets@.len(),
                mark_from(self.patchsets@, mark, 0) == mark_from(self.patchsets@, mark, i as int),
            decreases self.patchsets@.len() - i,
        {
            if self.patchsets[i].mark.0 == mark.0 {
                return Ok(&self.patchsets[i]);
            }
            i = i + 1;
        }
        Err(StateError::NoPatchSetForMark(mark.0))
    }

    /// The latest patchset that holds the file revision, with its mark.
    pub fn get_last_patchset_for_file_revision(&self, id: u64) -> (r: Option<(Mark, &StoredPatchSet)>)
        ensures
            match latest_with(self.patchsets@, id, self.patchsets@.len() as int) {
                None => r is None,
                Some(j) => r matches Some((m, p)) && *p == self.patchsets@[j] && m == p.mark,
            },
    {
        let mut best: Option<usize> = None;
        let mut i: usize = 0;
        while i < self.patchsets.len()
            invariant
                i <= self.patchsets@.len(),
                match latest_with(self.patchsets@, id, i as int) {
                    None => best is None,
                    Some(j) => best == Some(j as usize),
                },
                best matches Some(j) ==> j < i,
            decreases self.patchsets@.len() - i,
        {
            proof {
                lemma_latest_bounds(self.patchsets@, id, i as int);
                lemma_latest_bounds(self.patchsets@, id, i + 1);
            }
            let ghost prev = latest_with(self.patchsets@, id, i as int);
            assert(latest_with(self.patchsets@, id, i + 1) == if self.patchsets@[i as int].file_revisions@.contains(id) {
                match prev {
                    None => Some(i as int),
                    Some(j) => if self.patchsets@[j].time < self.patchsets@[i as int].time {
                        Some(i as int)
                    } else {
                        Some(j)
                    },
                }
            } else {
                prev
            });
            if contains_id(self.patchsets[i].file_revisions.as_slice(), id) {
                match best {
                    None => {
                        best = Some(i);
                    },
                    Some(j) => {
                        if self.patchsets[j].time < self.patchsets[i].time {
                            best = Some(i);
                        }
                    },
                }
            }
            i = i + 1;
        }
        assert(i == self.patchsets@.len());
        proof {
            lemma_latest_bounds(self.patchsets@, id, i as int);
        }
        match best {
            None => None,
            Some(j) => Some((self.patchsets[j].mark, &self.patchsets[j])),
        }
    }

    /// The marks of the patchsets that hold the file revision, in the order
    /// they were sent.
    pub fn get_patchset_ids_for_file_revision(&self, id: u64) -> (r: Vec<Mark>)
        ensures
            r@ == marks_with(self.patchsets@, id, self.patchsets@.len() as int),
    {
        let mut out: Vec<Mark> = Vec::new();
        let mut i: usize = 0;
        while i < self.patchsets.len()
            invariant
                i <= self.patchsets@.len(),
                out@ == marks_with(self.patchsets@, id, i as int),
            decreases self.patchsets@.len() - i,
        {
            if contains_id(self.patchsets[i].file_revisions.as_slice(), id) {
                out.push(self.patchsets[i].mark);
            }
            i = i + 1;
        }
        out
    }

    /// Adds a file revision to a tag.
    pub fn add_tag(&mut self, tag: &[u8], file_revision_id: u64)
        ensures
            final(self).tag_log@.len() == old(self).tag_log@.len() + 1,
            final(self).tag_log@.drop_last() == old(self).tag_log@,
            final(self).tag_log@.last().0@ == tag@,
            final(self).tag_log@.last().1 == file_revision_id,
            final(self).file_revisions == old(self).file_revisions,
            final(self).patchsets == old(self).patchsets,
            final(self).branch_log == old(self).branch_log,
            final(self).tag_marks == old(self).tag_marks,
            final(self).raw_marks == old(self).raw_marks,
    {
        self.tag_log.push((copy_bytes(tag), file_revision_id));
        assert(self.tag_log@.drop_last() =~= old(self).tag_log@);
    }

    /// The file revisions of a tag, as an ascending set; `NoTag` where it has
    /// none.
    pub fn get_file_revisions_for_tag(&self, tag: &[u8]) -> (r: Result<Vec<u64>, StateError>)
        ensures
            ({
                let ids = tag_ids(self.tag_log@, tag@, self.tag_log@.len() as int);
                if ids.len() == 0 {
                    r == Err::<Vec<u64>, StateError>(StateError::NoTag)
                } else {
                    r matches Ok(v) && v@ == ids
                }
            }),
    {
        let mut out: Vec<u64> = Vec::new();
        let mut i: usize = 0;
        while i < self.tag_log.len()
            invariant
                i <= self.tag_log@.len(),
                out@ == tag_ids(self.tag_log@, tag@, i as int),
            decreases self.tag_log@.len() - i,
        {
            if bytes_eq(self.tag_log[i].0.as_slice(), tag) {
                insert_id(&mut out, self.tag_log[i].1);
            }
            i = i + 1;
        }
        if out.len() == 0 {
            Err(StateError::NoTag)
        } else {
            Ok(out)
        }
    }

    /// Records the synthetic commit made for a tag.
    pub fn add_tag_mark(&mut self, tag: &[u8], mark: Mark)
        ensures
            final(self).tag_marks@.len() == old(self).tag_marks@.len() + 1,
            final(self).tag_marks@.drop_last() == old(self).tag_marks@,
            final(self).tag_marks@.last().0@ == tag@,
            final(self).tag_marks@.last().1 == mark,
            final(self).file_revisions == old(self).file_revisions,
            final(self).patchsets == old(self).patchsets,
            final(self).branch_log == old(self).branch_log,
            final(self).tag_log == old(self).tag_log,
            final(self).raw_marks == old(self).raw_marks,
    {
        self.tag_marks.push((copy_bytes(tag), mark));
        assert(self.tag_marks@.drop_last() =~= old(self).tag_marks@);
    }

    /// The synthetic commit last made for a tag.
    pub fn get_mark_for_tag(&self, tag: &[u8]) -> (r: Option<Mark>)
        ensures
            r == last_logged(self.tag_marks@, tag@, self.tag_marks@.len() as int),
    {
        let mut n = self.tag_marks.len();
        while n > 0
            invariant
                n <= self.tag_marks@.len(),
                last_logged(self.tag_marks@, tag@, self.tag_marks@.len() as int) == last_logged(
                    self.tag_marks@,
                    tag@,
                    n as int,
                ),
            decreases n,
        {
            if bytes_eq(self.tag_marks[n - 1].0.as_slice(), tag) {
                return Some(self.tag_marks[n - 1].1);
            }
            n = n - 1;
        }
        None
    }

    /// The names of the tags, each once, in the order first added.
    pub fn get_tags(&self) -> (r: Vec<Vec<u8>>)
        ensures
            lines_view(r@) == tag_names(self.tag_log@, self.tag_log@.len() as int),
    {
        let mut out: Vec<Vec<u8>> = Vec::new();
        let mut k: usize = 0;
        while k < self.tag_log.len()
            invariant
                k <= self.tag_log@.len(),
                lines_view(out@) == tag_names(self.tag_log@, k as int),
            decreases self.tag_log@.len() - k,
        {
            let name = self.tag_log[k].0.as_slice();
            let seen = has_name(&out, name);
            proof {
                let lv = lines_view(out@);
                if seen {
                    let i = choose|i: int| 0 <= i < out@.len() && out@[i]@ == name@;
                    assert(lv[i] == name@);
                    assert(lv.contains(name@));
                } else {
                    assert forall|i: int| 0 <= i < lv.len() implies lv[i] != name@ by {
                        assert(lv[i] == out@[i]@);
                    }
                }
            }
            if !seen {
                let ghost o = out@;
                let c = copy_bytes(name);
                out.push(c);
                assert(lines_view(out@) =~= lines_view(o).push(name@));
            }
            k = k + 1;
        }
        out
    }

    /// The raw mark file saved from the last run.
    pub fn get_raw_marks(&self) -> (r: Vec<u8>)
        ensures
            r@ == self.raw_marks@,
    {
        copy_bytes(self.raw_marks.as_slice())
    }

    /// Replaces the raw mark file.
    pub fn set_raw_marks(&mut self, data: &[u8])
        ensures
            final(self).raw_marks@ == data@,
            final(self).file_revisions == old(self).file_revisions,
            final(self).patchsets == old(self).patchsets,
            final(self).branch_log == old(self).branch_log,
            final(self).tag_log == old(self).tag_log,
            final(self).tag_marks == old(self).tag_marks,
    {
        self.raw_marks = copy_bytes(data);
    }
}

proof fn lemma_latest_bounds(ps: Seq<StoredPatchSet>, id: u64, n: int)
    ensures
        latest_with(ps, id, n) matches Some(j) ==> 0 <= j < n,
    decreases n,
{
    if n > 0 {
        lemma_latest_bounds(ps, id, n - 1);
    }
}

/// Whether one of the names is `name`.
fn has_name(names: &Vec<Vec<u8>>, name: &[u8]) -> (r: bool)
    ensures
        r == exists|i: int| 0 <= i < names@.len() && names@[i]@ == name@,
{
    let mut i: usize = 0;
    while i < names.len()
        invariant
            i <= names@.len(),
            forall|j: int| 0 <= j < i ==> names@[j]@ != name@,
        decreases names@.len() - i,
    {
        if bytes_eq(names[i].as_slice(), name) {
            return true;
        }
        i = i + 1;
    }
    false
}

/// Whether the id is in the list.
pub fn contains_id(ids: &[u64], id: u64) -> (r: bool)
    ensures
        r == ids@.contains(id),
{
    let mut i: usize = 0;
    while i < ids.len()
        invariant
            i <= ids@.len(),
            forall|j: int| 0 <= j < i ==> ids@[j] != id,
        decreases ids@.len() - i,
    {
        if ids[i] == id {
            assert(ids@[i as int] == id);
            return true;
        }
        i = i + 1;
    }
    false
}

/// Whether every id of `a` is in `b`.
fn all_in(a: &[u64], b: &[u64]) -> (r: bool)
    ensures
        r == forall|x: u64| a@.contains(x) ==> b@.contains(x),
{
    let mut i: usize = 0;
    while i < a.len()
        invariant
            i <= a@.len(),
            forall|j: int| 0 <= j < i ==> b@.contains(#[trigger] a@[j]),
        decreases a@.len() - i,
    {
        if !contains_id(b, a[i]) {
            assert(a@.contains(a@[i as int]));
            return false;
        }
        i = i + 1;
    }
    assert forall|x: u64| a@.contains(x) implies b@.contains(x) by {
        let j = choose|j: int| 0 <= j < a@.len() && a@[j] == x;
        assert(b@.contains(a@[j]));
    }
    true
}

/// Whether the two lists hold the same ids.
pub fn same_id_set(a: &[u64], b: &[u64]) -> (r: bool)
    ensures
        r == same_ids(a@, b@),
{
    let r = all_in(a, b) && all_in(b, a);
    proof {
        if r {
            assert(a@.to_set() =~= b@.to_set());
        } else if a@.to_set() == b@.to_set() {
            assert forall|x: u64| a@.contains(x) implies b@.contains(x) by {
                assert(a@.to_set().contains(x));
            }
            assert forall|x: u64| b@.contains(x) implies a@.contains(x) by {
                assert(b@.to_set().contains(x));
            }
        }
    }
    r
}

} // verus!
