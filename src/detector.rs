//! Patchset detection: per-file commits with the same author and message whose
//! times lie close together are grouped into one repository-wide commit.
use vstd::prelude::*;
use vstd::multiset::Multiset;
use crate::bytes::copy_bytes;

verus! {

broadcast use vstd::seq_lib::group_to_multiset_ensures;

/// A min-heap of `(time, index)` pairs, kept in binary_heap_plus's heap.
#[verifier::external_body]
pub struct MinHeap {
    heap: binary_heap_plus::BinaryHeap<(u64, u64), binary_heap_plus::MinComparator>,
}

/// The pairs that a heap holds.
pub uninterp spec fn heap_items(h: MinHeap) -> Multiset<(u64, u64)>;

/// The order of std's tuples: by the first field, then by the second.
pub open spec fn pair_le(a: (u64, u64), b: (u64, u64)) -> bool {
    a.0 < b.0 || (a.0 == b.0 && a.1 <= b.1)
}

/// Relies on binary_heap_plus::BinaryHeap::new_min: an empty heap.
#[verifier::external_body]
fn heap_new() -> (r: MinHeap)
    ensures
        heap_items(r) == Multiset::<(u64, u64)>::empty(),
{
    MinHeap { heap: binary_heap_plus::BinaryHeap::new_min() }
}

/// Relies on binary_heap_plus::BinaryHeap::push: the item joins the heap.
#[verifier::external_body]
fn heap_push(h: &mut MinHeap, item: (u64, u64))
    ensures
        heap_items(*final(h)) == heap_items(*old(h)).insert(item),
{
    h.heap.push(item)
}

/// Relies on binary_heap_plus::BinaryHeap::pop: with MinComparator it removes
/// and returns a least item, or `None` when the heap is empty.
#[verifier::external_body]
fn heap_pop(h: &mut MinHeap) -> (r: Option<(u64, u64)>)
    ensures
        heap_items(*old(h)).len() == 0 ==> r is None && heap_items(*final(h)) == heap_items(*old(h)),
        heap_items(*old(h)).len() > 0 ==> r is Some && heap_items(*old(h)).contains(r->0)
            && heap_items(*final(h)) == heap_items(*old(h)).remove(r->0) && forall|x: (u64, u64)|
            heap_items(*old(h)).contains(x) ==> pair_le(r->0, x),
{
    h.heap.pop()
}

/// A file commit handed to the detector.
#[derive(Debug, Clone)]
pub struct FileCommit {
    pub path: Vec<u8>,
    /// The content id, or `None` where the commit deletes the file.
    pub id: Option<u64>,
    pub author: Vec<u8>,
    pub message: Vec<u8>,
    /// Seconds since the Unix epoch.
    pub time: u64,
}

/// The commits of one author and message, ordered by time in the heap.
pub struct Bucket {
    pub author: Vec<u8>,
    pub message: Vec<u8>,
    pub heap: MinHeap,
}

/// A detected patchset: the time of its latest commit, its author and
/// message, and each file commit folded into it, in time order.
pub struct PatchSet {
    pub time: u64,
    pub author: Vec<u8>,
    pub message: Vec<u8>,
    /// `(path, id)` for each file commit, in the order they were folded in.
    pub files: Vec<(Vec<u8>, Option<u64>)>,
    /// The indices of the file commits, in the order they were added to the
    /// detector, that make up the patchset.
    pub members: Ghost<Seq<(u64, u64)>>,
}

/// Groups file commits into patchsets.
pub struct Detector {
    delta: u64,
    commits: Vec<FileCommit>,
    buckets: Vec<Bucket>,
}

/// The `(time, index)` pair of each commit.
pub open spec fn commit_items(commits: Seq<FileCommit>) -> Multiset<(u64, u64)>
    decreases commits.len(),
{
    if commits.len() == 0 {
        Multiset::empty()
    } else {
        commit_items(commits.drop_last()).insert(
            (commits.last().time, (commits.len() - 1) as u64),
        )
    }
}

/// The items of all the heaps.
pub open spec fn bucket_items(bs: Seq<Bucket>) -> Multiset<(u64, u64)>
    decreases bs.len(),
{
    if bs.len() == 0 {
        Multiset::empty()
    } else {
        bucket_items(bs.drop_last()).add(heap_items(bs.last().heap))
    }
}

/// The `(time, index)` members of all the patchsets.
pub open spec fn all_members(ps: Seq<PatchSet>) -> Multiset<(u64, u64)>
    decreases ps.len(),
{
    if ps.len() == 0 {
        Multiset::empty()
    } else {
        all_members(ps.drop_last()).add(ps.last().members@.to_multiset())
    }
}

pub open spec fn files_view(f: Seq<(Vec<u8>, Option<u64>)>) -> Seq<(Seq<u8>, Option<u64>)> {
    f.map_values(|e: (Vec<u8>, Option<u64>)| (e.0@, e.1))
}

/// A run of file commits of one author and message: `members` lists them as
/// `(time, index)` in ascending order, no two neighbours more than `delta`
/// apart, and `files` gives each one's path and id.
pub open spec fn run_ok(
    members: Seq<(u64, u64)>,
    files: Seq<(Seq<u8>, Option<u64>)>,
    author: Seq<u8>,
    message: Seq<u8>,
    commits: Seq<FileCommit>,
    delta: u64,
) -> bool {
    &&& files.len() == members.len()
    &&& forall|k: int|
        0 <= k < members.len() ==> {
            let (t, i) = #[trigger] members[k];
            &&& i < commits.len()
            &&& commits[i as int].time == t
            &&& commits[i as int].author@ == author
            &&& commits[i as int].message@ == message
            &&& files[k] == (commits[i as int].path@, commits[i as int].id)
        }
    &&& forall|k: int|
        0 < k < members.len() ==> pair_le(members[k - 1], #[trigger] members[k]) && members[k].0
            - members[k - 1].0 <= delta
}

/// A patchset made of a non-empty run, dated at its latest commit.
pub open spec fn patchset_ok(p: PatchSet, commits: Seq<FileCommit>, delta: u64) -> bool {
    &&& p.members@.len() > 0
    &&& p.time == p.members@.last().0
    &&& run_ok(p.members@, files_view(p.files@), p.author@, p.message@, commits, delta)
}

/// The sum of `items(b.heap)` over the buckets is unchanged when one
/// bucket's heap is swapped for another, up to the two heaps.
proof fn lemma_bucket_items_update(bs: Seq<Bucket>, b: int, nb: Bucket)
    requires
        0 <= b < bs.len(),
    ensures
        bucket_items(bs.update(b, nb)).add(heap_items(bs[b].heap)) == bucket_items(bs).add(
            heap_items(nb.heap),
        ),
    decreases bs.len(),
{
    let u = bs.update(b, nb);
    if b == bs.len() - 1 {
        assert(u.drop_last() =~= bs.drop_last());
        assert(u.last() == nb);
        assert(bucket_items(u) == bucket_items(bs.drop_last()).add(heap_items(nb.heap)));
        assert(bucket_items(bs) == bucket_items(bs.drop_last()).add(heap_items(bs[b].heap)));
    } else {
        assert(u.drop_last() =~= bs.drop_last().update(b, nb));
        lemma_bucket_items_update(bs.drop_last(), b, nb);
        assert(u.last() == bs.last());
        assert(bucket_items(u) == bucket_items(u.drop_last()).add(heap_items(bs.last().heap)));
    }
    assert forall|x: (u64, u64)|
        #![trigger bucket_items(u).count(x)]
        bucket_items(u).add(heap_items(bs[b].heap)).count(x) == bucket_items(bs).add(
            heap_items(nb.heap),
        ).count(x) by {
        if b < bs.len() - 1 {
            assert(bucket_items(bs.drop_last().update(b, nb)).add(heap_items(bs[b].heap)).count(x)
                == bucket_items(bs.drop_last()).add(heap_items(nb.heap)).count(x));
        }
    }
    assert(bucket_items(u).add(heap_items(bs[b].heap)) =~= bucket_items(bs).add(heap_items(nb.heap)));
}

/// The outer heap's items: `(time, k)` for each patchset `k` below `n` not yet
/// taken out.
pub open spec fn untaken_items(made: Seq<PatchSet>, taken: Seq<bool>, n: nat) -> Multiset<(u64, u64)>
    decreases n,
{
    if n == 0 {
        Multiset::empty()
    } else if taken[n - 1] {
        untaken_items(made, taken, (n - 1) as nat)
    } else {
        untaken_items(made, taken, (n - 1) as nat).insert((made[n - 1].time, (n - 1) as u64))
    }
}

/// The members of the patchsets below `n` not yet taken out.
pub open spec fn untaken_members(made: Seq<PatchSet>, taken: Seq<bool>, n: nat) -> Multiset<(u64, u64)>
    decreases n,
{
    if n == 0 {
        Multiset::empty()
    } else if taken[n - 1] {
        untaken_members(made, taken, (n - 1) as nat)
    } else {
        untaken_members(made, taken, (n - 1) as nat).add(made[n - 1].members@.to_multiset())
    }
}

proof fn lemma_untaken_frame(m1: Seq<PatchSet>, t1: Seq<bool>, m2: Seq<PatchSet>, t2: Seq<bool>, n: nat)
    requires
        forall|i: int| 0 <= i < n ==> m1[i] == m2[i] && t1[i] == t2[i],
    ensures
        untaken_items(m1, t1, n) == untaken_items(m2, t2, n),
        untaken_members(m1, t1, n) == untaken_members(m2, t2, n),
    decreases n,
{
    if n > 0 {
        lemma_untaken_frame(m1, t1, m2, t2, (n - 1) as nat);
    }
}

proof fn lemma_untaken_take(made: Seq<PatchSet>, taken: Seq<bool>, n: nat, k: int)
    requires
        0 <= k < n,
        !taken[k],
        n <= taken.len(),
    ensures
        untaken_items(made, taken.update(k, true), n).insert((made[k].time, k as u64))
            == untaken_items(made, taken, n),
        untaken_members(made, taken.update(k, true), n).add(made[k].members@.to_multiset())
            == untaken_members(made, taken, n),
    decreases n,
{
    let t2 = taken.update(k, true);
    if k < n - 1 {
        lemma_untaken_take(made, taken, (n - 1) as nat, k);
        let a = untaken_items(made, t2, (n - 1) as nat);
        let b = untaken_members(made, t2, (n - 1) as nat);
        if !taken[n - 1] {
            assert(a.insert((made[n - 1].time, (n - 1) as u64)).insert((made[k].time, k as u64))
                =~= a.insert((made[k].time, k as u64)).insert((made[n - 1].time, (n - 1) as u64)));
            assert(b.add(made[n - 1].members@.to_multiset()).add(made[k].members@.to_multiset())
                =~= b.add(made[k].members@.to_multiset()).add(made[n - 1].members@.to_multiset()));
        }
    } else {
        lemma_untaken_frame(made, t2, made, taken, (n - 1) as nat);
    }
}

proof fn lemma_untaken_contains(made: Seq<PatchSet>, taken: Seq<bool>, n: nat, x: (u64, u64))
    requires
        untaken_items(made, taken, n).contains(x),
        n <= u64::MAX,
    ensures
        x.1 < n,
        !taken[x.1 as int],
        made[x.1 as int].time == x.0,
    decreases n,
{
    if n > 0 {
        if taken[n - 1] || x != (made[n - 1].time, (n - 1) as u64) {
            lemma_untaken_contains(made, taken, (n - 1) as nat, x);
        }
    }
}

/// Two patchsets of the same author and message are more than `delta`
/// apart: every commit of one is more than `delta` from every commit of the
/// other.
#[verifier::opaque]
pub open spec fn separated(p: PatchSet, q: PatchSet, delta: u64) -> bool {
    p.author@ == q.author@ && p.message@ == q.message@ ==> forall|a: int, b: int|
        0 <= a < p.members@.len() && 0 <= b < q.members@.len() ==> (#[trigger] p.members@[a].0 as int
            - #[trigger] q.members@[b].0 as int > delta || q.members@[b].0 as int - p.members@[a].0 as int
            > delta)
}

pub open spec fn all_separated(ps: Seq<PatchSet>, delta: u64) -> bool {
    forall|i: int, j: int| 0 <= i < ps.len() && 0 <= j < ps.len() && i != j ==> separated(#[trigger] ps[i], #[trigger] ps[j], delta)
}

pub open spec fn same_key(a1: Seq<u8>, m1: Seq<u8>, a2: Seq<u8>, m2: Seq<u8>) -> bool {
    a1 == a2 && m1 == m2
}

pub open spec fn sorted_by_time(ps: Seq<PatchSet>) -> bool {
    forall|i: int, j: int| 0 <= i < j < ps.len() ==> ps[i].time <= ps[j].time
}

impl Detector {
    /// Each heap item `(t, i)` names commit `i`, whose time is `t` and whose
    /// author and message are the bucket's; together the heaps hold each
    /// commit once.
    pub closed spec fn wf(&self) -> bool {
        &&& self.commits@.len() <= u64::MAX
        &&& bucket_items(self.buckets@) == commit_items(self.commits@)
        &&& forall|b: int, x: (u64, u64)|
            0 <= b < self.buckets@.len() && #[trigger] heap_items(self.buckets@[b].heap).contains(x)
                ==> x.1 < self.commits@.len() && self.commits@[x.1 as int].time == x.0
                && self.commits@[x.1 as int].author@ == self.buckets@[b].author@
                && self.commits@[x.1 as int].message@ == self.buckets@[b].message@
        &&& forall|b1: int, b2: int|
            0 <= b1 < b2 < self.buckets@.len() ==> !same_key(
                #[trigger] self.buckets@[b1].author@,
                self.buckets@[b1].message@,
                #[trigger] self.buckets@[b2].author@,
                self.buckets@[b2].message@,
            )
    }

    pub closed spec fn commits(&self) -> Seq<FileCommit> {
        self.commits@
    }

    pub closed spec fn delta(&self) -> u64 {
        self.delta
    }

    /// The number of file commits recorded.
    pub fn len(&self) -> (r: usize)
        ensures
            r == self.commits().len(),
    {
        self.commits.len()
    }

    /// A detector that splits patchsets at gaps longer than `delta` seconds.
    pub fn new(delta: u64) -> (r: Detector)
        ensures
            r.wf(),
            r.commits().len() == 0,
            r.delta() == delta,
    {
        Detector { delta, commits: Vec::new(), buckets: Vec::new() }
    }

    /// Records a file commit.
    pub fn add_file_commit(
        &mut self,
        path: Vec<u8>,
        id: Option<u64>,
        author: Vec<u8>,
        message: Vec<u8>,
        time: u64,
    )
        requires
            old(self).wf(),
            old(self).commits().len() < u64::MAX,
        ensures
            final(self).wf(),
            final(self).delta() == old(self).delta(),
            final(self).commits().len() == old(self).commits().len() + 1,
            final(self).commits().drop_last() == old(self).commits(),
            final(self).commits().last().path@ == path@,
            final(self).commits().last().id == id,
            final(self).commits().last().author@ == author@,
            final(self).commits().last().message@ == message@,
            final(self).commits().last().time == time,
    {
        let idx = self.commits.len() as u64;
        let item = (time, idx);
        let mut b: usize = 0;
        let mut found = false;
        while b < self.buckets.len() && !found
            invariant
                b <= self.buckets@.len(),
                found ==> b < self.buckets@.len() && self.buckets@[b as int].author@ == author@
                    && self.buckets@[b as int].message@ == message@,
                !found ==> forall|j: int|
                    0 <= j < b ==> !same_key(#[trigger] self.buckets@[j].author@, self.buckets@[j].message@, author@, message@),
            decreases self.buckets@.len() - b + if found {
                0int
            } else {
                1int
            },
        {
            if bytes_eq(self.buckets[b].author.as_slice(), author.as_slice()) && bytes_eq(
                self.buckets[b].message.as_slice(),
                message.as_slice(),
            ) {
                found = true;
            } else {
                b = b + 1;
            }
        }
        let ghost old_buckets = self.buckets@;
        let ghost old_commits = self.commits@;
        let c = FileCommit { path, id, author, message, time };
        if found {
            let mut bucket = self.buckets.remove(b);
            assert(bucket == old_buckets[b as int]);
            heap_push(&mut bucket.heap, item);
            let ghost nb = bucket;
            self.buckets.insert(b, bucket);
            assert(self.buckets@ =~= old_buckets.update(b as int, nb));
            proof {
                lemma_bucket_items_update(old_buckets, b as int, nb);
                let hb = heap_items(old_buckets[b as int].heap);
                assert forall|x: (u64, u64)|
                    #![trigger bucket_items(self.buckets@).count(x)]
                    bucket_items(self.buckets@).count(x) == bucket_items(old_buckets).insert(
                        item,
                    ).count(x) by {
                    assert(bucket_items(self.buckets@).add(hb).count(x) == bucket_items(
                        old_buckets,
                    ).add(heap_items(nb.heap)).count(x));
                }
                assert(bucket_items(self.buckets@) =~= bucket_items(old_buckets).insert(item));
            }
        } else {
            let mut heap = heap_new();
            heap_push(&mut heap, item);
            let nb = Bucket { author: copy_bytes(c.author.as_slice()), message: copy_bytes(c.message.as_slice()), heap };
            self.buckets.push(nb);
            assert(self.buckets@.drop_last() =~= old_buckets);
            assert(bucket_items(self.buckets@) =~= bucket_items(old_buckets).insert(item));
        }
        self.commits.push(c);
        assert(self.commits@.drop_last() =~= old_commits);
        assert forall|bi: int, x: (u64, u64)|
            0 <= bi < self.buckets@.len() && #[trigger] heap_items(self.buckets@[bi].heap).contains(x)
            implies x.1 < self.commits@.len() && self.commits@[x.1 as int].time == x.0
                && self.commits@[x.1 as int].author@ == self.buckets@[bi].author@
                && self.commits@[x.1 as int].message@ == self.buckets@[bi].message@ by {
            if x != item {
                if found && bi == b {
                    assert(heap_items(old_buckets[bi].heap).contains(x));
                } else if !found && bi == old_buckets.len() {
                } else {
                    assert(self.buckets@[bi] == old_buckets[bi]);
                    assert(heap_items(old_buckets[bi].heap).contains(x));
                }
                assert(self.commits@[x.1 as int] == old_commits[x.1 as int]);
            } else {
                if found {
                    assert(old_buckets[b as int].author@ == self.commits@[x.1 as int].author@);
                }
            }
        }
    }

    /// Consumes the detector and returns the detected patchsets in ascending
    /// time order.
    ///
    /// Within each author and message, the commits are taken in time order
    /// and a new patchset starts wherever the gap to the previous commit
    /// exceeds `delta`.
    #[verifier::rlimit(100)]
    pub fn into_patchset_iter(self) -> (r: Vec<PatchSet>)
        requires
            self.wf(),
        ensures
            sorted_by_time(r@),
            all_members(r@) == commit_items(self.commits()),
            forall|k: int| 0 <= k < r@.len() ==> patchset_ok(#[trigger] r@[k], self.commits(), self.delta()),
            all_separated(r@, self.delta()),
            all_entries(r@).to_multiset() == commit_entries(self.commits()).to_multiset(),
    {
        let Detector { delta, commits, mut buckets } = self;
        let ghost cs = commits@;
        let mut made: Vec<PatchSet> = Vec::new();
        let mut outer = heap_new();
        while buckets.len() > 0
            invariant
                cs == commits@,
                all_members(made@).add(bucket_items(buckets@)) == commit_items(cs),
                heap_items(outer) == untaken_items(made@, Seq::new(made@.len(), |i: int| false), made@.len()),
                forall|k: int| 0 <= k < made@.len() ==> patchset_ok(#[trigger] made@[k], cs, delta),
                forall|b: int, x: (u64, u64)|
                    0 <= b < buckets@.len() && #[trigger] heap_items(buckets@[b].heap).contains(x)
                        ==> x.1 < cs.len() && cs[x.1 as int].time == x.0
                        && cs[x.1 as int].author@ == buckets@[b].author@
                        && cs[x.1 as int].message@ == buckets@[b].message@,
                forall|b1: int, b2: int|
                    0 <= b1 < b2 < buckets@.len() ==> !same_key(
                        #[trigger] buckets@[b1].author@,
                        buckets@[b1].message@,
                        #[trigger] buckets@[b2].author@,
                        buckets@[b2].message@,
                    ),
                forall|k: int, b: int|
                    0 <= k < made@.len() && 0 <= b < buckets@.len() ==> !same_key(
                        #[trigger] made@[k].author@,
                        made@[k].message@,
                        #[trigger] buckets@[b].author@,
                        buckets@[b].message@,
                    ),
                all_separated(made@, delta),
            decreases buckets@.len(),
        {
            let ghost before = buckets@;
            let mut bucket = buckets.pop().unwrap();
            assert(buckets@ =~= before.drop_last());
            assert(bucket == before.last());
            proof {
                assert(Seq::<(u64, u64)>::empty().to_multiset() =~= Multiset::empty());
                let a = all_members(made@);
                assert(a.add(Seq::<(u64, u64)>::empty().to_multiset()).add(heap_items(bucket.heap)).add(
                    bucket_items(buckets@),
                ) =~= a.add(bucket_items(before)));
            }
            let mut last: Option<u64> = None;
            let mut files: Vec<(Vec<u8>, Option<u64>)> = Vec::new();
            let ghost mut members: Seq<(u64, u64)> = Seq::empty();
            let ghost mut boundary: Option<u64> = None;
            proof {
                assert forall|b: int|
                    0 <= b < buckets@.len() implies !same_key(
                        bucket.author@,
                        bucket.message@,
                        #[trigger] buckets@[b].author@,
                        buckets@[b].message@,
                    ) by {
                    assert(before[b] == buckets@[b]);
                    assert(!same_key(before[b].author@, before[b].message@, before[before.len() - 1].author@, before[before.len() - 1].message@));
                }
                assert forall|k: int|
                    0 <= k < made@.len() implies !same_key(
                        (#[trigger] made@[k]).author@,
                        made@[k].message@,
                        bucket.author@,
                        bucket.message@,
                    ) by {
                    assert(!same_key(made@[k].author@, made@[k].message@, before[before.len() - 1].author@, before[before.len() - 1].message@));
                }
            }
            loop
                invariant
                    cs == commits@,
                    all_members(made@).add(members.to_multiset()).add(heap_items(bucket.heap)).add(
                        bucket_items(buckets@),
                    ) == commit_items(cs),
                    heap_items(outer) == untaken_items(made@, Seq::new(made@.len(), |i: int| false), made@.len()),
                    forall|k: int| 0 <= k < made@.len() ==> patchset_ok(#[trigger] made@[k], cs, delta),
                    forall|b: int, x: (u64, u64)|
                        0 <= b < buckets@.len() && #[trigger] heap_items(buckets@[b].heap).contains(x)
                            ==> x.1 < cs.len() && cs[x.1 as int].time == x.0
                            && cs[x.1 as int].author@ == buckets@[b].author@
                            && cs[x.1 as int].message@ == buckets@[b].message@,
                    forall|x: (u64, u64)|
                        #[trigger] heap_items(bucket.heap).contains(x) ==> x.1 < cs.len()
                            && cs[x.1 as int].time == x.0 && cs[x.1 as int].author@ == bucket.author@
                            && cs[x.1 as int].message@ == bucket.message@,
                    run_ok(members, files_view(files@), bucket.author@, bucket.message@, cs, delta),
                    members.len() > 0 <==> last is Some,
                    last is Some ==> last->0 == members.last().0,
                        members.len() > 0 ==> forall|x: (u64, u64)|
                        #[trigger] heap_items(bucket.heap).contains(x) ==> pair_le(members.last(), x),
                    forall|b1: int, b2: int|
                        0 <= b1 < b2 < buckets@.len() ==> !same_key(
                            #[trigger] buckets@[b1].author@,
                            buckets@[b1].message@,
                            #[trigger] buckets@[b2].author@,
                            buckets@[b2].message@,
                        ),
                    forall|k: int, b: int|
                        0 <= k < made@.len() && 0 <= b < buckets@.len() ==> !same_key(
                            #[trigger] made@[k].author@,
                            made@[k].message@,
                            #[trigger] buckets@[b].author@,
                            buckets@[b].message@,
                        ),
                    forall|b: int|
                        0 <= b < buckets@.len() ==> !same_key(
                            bucket.author@,
                            bucket.message@,
                            #[trigger] buckets@[b].author@,
                            buckets@[b].message@,
                        ),
                    all_separated(made@, delta),
                    forall|k: int|
                        0 <= k < made@.len() && same_key(
                            (#[trigger] made@[k]).author@,
                            made@[k].message@,
                            bucket.author@,
                            bucket.message@,
                        ) ==> boundary is Some && forall|a: int|
                            0 <= a < made@[k].members@.len() ==> (#[trigger] made@[k].members@[a]).0
                                <= boundary->0,
                    members.len() == 0 ==> boundary is None,
                    members.len() > 0 ==> forall|a: int|
                        0 <= a < members.len() ==> members[0].0 <= (#[trigger] members[a]).0
                            <= members.last().0,
                    members.len() > 0 && boundary is Some ==> members[0].0 - boundary->0 > delta,
                ensures
                    heap_items(bucket.heap).len() == 0,
                decreases heap_items(bucket.heap).len(),
            {
                let ghost h0 = heap_items(bucket.heap);
                let popped = heap_pop(&mut bucket.heap);
                let (t, i) = match popped {
                    None => {
                        break;
                    },
                    Some(x) => x,
                };
                assert(h0.contains((t, i)));
                assert forall|x: (u64, u64)|
                    #[trigger] heap_items(bucket.heap).contains(x) implies h0.contains(x) by {
                    if x != (t, i) {
                        assert(h0.count(x) == heap_items(bucket.heap).count(x));
                    }
                }
                if let Some(l) = last {
                    if t > l && t - l > delta {
                        let ps = PatchSet {
                            time: l,
                            author: copy_bytes(bucket.author.as_slice()),
                            message: copy_bytes(bucket.message.as_slice()),
                            files,
                            members: Ghost(members),
                        };
                        let ghost made0 = made@;
                        made.push(ps);
                        proof {
                            assert(made@.drop_last() =~= made0);
                            lemma_untaken_frame(
                                made@,
                                Seq::new(made@.len(), |i: int| false),
                                made0,
                                Seq::new(made0.len(), |i: int| false),
                                made0.len(),
                            );
                        }
                        heap_push(&mut outer, (l, (made.len() - 1) as u64));
                        files = Vec::new();
                        proof {
                            lemma_flush_separated(made0, made@, members, bucket.author@, bucket.message@, boundary, delta);
                            assert(all_members(made@) == all_members(made0).add(members.to_multiset()));
                            boundary = Some(l);
                            assert forall|k: int|
                                0 <= k < made@.len() && same_key(
                                    (#[trigger] made@[k]).author@,
                                    made@[k].message@,
                                    bucket.author@,
                                    bucket.message@,
                                ) implies boundary is Some && forall|a: int|
                                    0 <= a < made@[k].members@.len() ==> (#[trigger] made@[k].members@[a]).0
                                        <= boundary->0 by {
                                if k < made0.len() {
                                    assert(made@[k] == made0[k]);
                                    assert(members[0].0 <= l);
                                }
                            }
                            members = Seq::empty();
                            assert(members.to_multiset() =~= Multiset::empty());
                            assert(files_view(files@) =~= Seq::empty());
                        }
                    }
                }
                assert(i < cs.len());
                let entry = (copy_bytes(commits[i as usize].path.as_slice()), commits[i as usize].id);
                let ghost files0 = files@;
                let ghost members0 = members;
                files.push(entry);
                proof {
                    if members.len() > 0 {
                        assert(pair_le(members.last(), (t, i)));
                    }
                    members = members.push((t, i));
                    assert(files_view(files@) =~= files_view(files0).push((cs[i as int].path@, cs[i as int].id)));
                    vstd::seq_lib::to_multiset_build(members0, (t, i));
                    assert(heap_items(bucket.heap) == h0.remove((t, i)));
                    assert(h0 =~= heap_items(bucket.heap).insert((t, i)));
                    assert(members.to_multiset() == members0.to_multiset().insert((t, i)));
                    let a = all_members(made@);
                    let r = bucket_items(buckets@);
                    assert(a.add(members.to_multiset()).add(heap_items(bucket.heap)).add(r) =~= a.add(
                        members0.to_multiset(),
                    ).add(h0).add(r));
                }
                last = Some(t);
            }
            if files.len() > 0 {
                let l = match last {
                    Some(l) => l,
                    None => 0,
                };
                let ps = PatchSet {
                    time: l,
                    author: copy_bytes(bucket.author.as_slice()),
                    message: copy_bytes(bucket.message.as_slice()),
                    files,
                    members: Ghost(members),
                };
                let ghost made0 = made@;
                made.push(ps);
                proof {
                    assert(made@.drop_last() =~= made0);
                    lemma_untaken_frame(
                        made@,
                        Seq::new(made@.len(), |i: int| false),
                        made0,
                        Seq::new(made0.len(), |i: int| false),
                        made0.len(),
                    );
                }
                heap_push(&mut outer, (l, (made.len() - 1) as u64));
                proof {
                    lemma_flush_separated(made0, made@, members, bucket.author@, bucket.message@, boundary, delta);
                    assert forall|k: int, b: int|
                        0 <= k < made@.len() && 0 <= b < buckets@.len() implies !same_key(
                            #[trigger] made@[k].author@,
                            made@[k].message@,
                            #[trigger] buckets@[b].author@,
                            buckets@[b].message@,
                        ) by {
                        if k < made0.len() {
                            assert(made@[k] == made0[k]);
                        }
                    }
                }
            } else {
                assert(members.to_multiset() =~= Multiset::empty());
            }
            proof {
                assert(heap_items(bucket.heap) =~= Multiset::empty());
            }
        }
        // Drain the outer heap in time order.
        let ghost all = made@;
        proof {
            assert(bucket_items(buckets@) =~= Multiset::empty());
            lemma_untaken_all(all, all.len());
            assert(all.subrange(0, all.len() as int) =~= all);
            assert(all_members(Seq::<PatchSet>::empty()) =~= Multiset::empty());
            assert(all_members(Seq::<PatchSet>::empty()).add(all_members(all)) =~= all_members(all));
        }
        assert(made.len() == made@.len());
        let ghost mut taken: Seq<bool> = Seq::new(made@.len(), |i: int| false);
        let mut out: Vec<PatchSet> = Vec::new();
        let ghost mut lp: (u64, u64) = (0, 0);
        let ghost mut src: Seq<int> = Seq::empty();
        loop
            invariant
                all == made@,
                all_separated(all, delta),
                src.len() == out@.len(),
                forall|i: int|
                    0 <= i < out@.len() ==> 0 <= #[trigger] src[i] < all.len() && taken[src[i]]
                        && out@[i].author@ == all[src[i]].author@ && out@[i].message@
                        == all[src[i]].message@ && out@[i].members == all[src[i]].members,
                all_separated(out@, delta),
                taken.len() == all.len(),
                heap_items(outer) == untaken_items(all, taken, all.len()),
                all_members(out@).add(untaken_members(all, taken, all.len())) == commit_items(cs),
                forall|k: int| 0 <= k < all.len() ==> patchset_ok(#[trigger] all[k], cs, delta),
                forall|k: int| 0 <= k < out@.len() ==> patchset_ok(#[trigger] out@[k], cs, delta),
                sorted_by_time(out@),
                out@.len() > 0 ==> lp.0 == out@.last().time,
                out@.len() > 0 ==> forall|x: (u64, u64)|
                    #[trigger] heap_items(outer).contains(x) ==> pair_le(lp, x),
                all.len() <= u64::MAX,
            ensures
                heap_items(outer).len() == 0,
                taken.len() == all.len(),
                all_members(out@).add(untaken_members(all, taken, all.len())) == commit_items(cs),
                heap_items(outer) == untaken_items(all, taken, all.len()),
                forall|k: int| 0 <= k < out@.len() ==> patchset_ok(#[trigger] out@[k], cs, delta),
                sorted_by_time(out@),
                all_separated(out@, delta),
            decreases heap_items(outer).len(),
        {
            let ghost h0 = heap_items(outer);
            let (t, k) = match heap_pop(&mut outer) {
                None => {
                    break;
                },
                Some(x) => x,
            };
            proof {
                lemma_untaken_contains(all, taken, all.len(), (t, k));
                lemma_untaken_take(all, taken, all.len(), k as int);
                assert(h0 =~= heap_items(outer).insert((t, k)));
            }
            let ps = copy_patchset(&made[k as usize]);
            let ghost out0 = out@;
            out.push(ps);
            proof {
                let t2 = taken.update(k as int, true);
                assert(out@.drop_last() =~= out0);
                assert(heap_items(outer) =~= untaken_items(all, t2, all.len()));
                assert(all_members(out@) == all_members(out0).add(all[k as int].members@.to_multiset()));
                assert(all_members(out@).add(untaken_members(all, t2, all.len())) =~= all_members(out0).add(
                    untaken_members(all, taken, all.len()),
                ));
                let ghost src0 = src;
                let ghost taken0 = taken;
                src = src.push(k as int);
                taken = t2;
                assert forall|i: int|
                    0 <= i < out@.len() implies 0 <= #[trigger] src[i] < all.len() && taken[src[i]]
                        && out@[i].author@ == all[src[i]].author@ && out@[i].message@
                        == all[src[i]].message@ && out@[i].members == all[src[i]].members by {
                    if i < out0.len() {
                        assert(out@[i] == out0[i]);
                    }
                }
                assert forall|i: int, j: int|
                    0 <= i < out@.len() && 0 <= j < out@.len() && i != j implies separated(
                        #[trigger] out@[i],
                        #[trigger] out@[j],
                        delta,
                    ) by {
                    if i < out0.len() && j < out0.len() {
                        assert(out@[i] == out0[i] && out@[j] == out0[j]);
                    } else {
                        if i < out0.len() {
                            assert(taken0[src0[i]]);
                            assert(src[i] != src[j]);
                        } else if j < out0.len() {
                            assert(taken0[src0[j]]);
                            assert(src[i] != src[j]);
                        }
                        assert(separated(all[src[i]], all[src[j]], delta));
                        lemma_separated_views(all[src[i]], all[src[j]], out@[i], out@[j], delta);
                    }
                }
                lp = (t, k);
                assert forall|x: (u64, u64)|
                    #[trigger] heap_items(outer).contains(x) implies pair_le(lp, x) by {
                    assert(h0.contains(x));
                }
            }
        }
        proof {
            assert forall|x: (u64, u64)| #[trigger] untaken_members(all, taken, all.len()).count(x) == 0 by {
                lemma_untaken_none(all, taken, all.len(), x);
            }
            assert(all_members(out@) =~= commit_items(cs));
            lemma_patchsets_partition(out@, cs, delta);
        }
        out
    }
}

/// Flushing a run of a bucket as a new patchset keeps every two patchsets
/// of one author and message more than `delta` apart: the run starts more
/// than `delta` after every earlier patchset of the bucket ends.
proof fn lemma_flush_separated(
    made0: Seq<PatchSet>,
    made: Seq<PatchSet>,
    members: Seq<(u64, u64)>,
    author: Seq<u8>,
    message: Seq<u8>,
    boundary: Option<u64>,
    delta: u64,
)
    requires
        made.len() == made0.len() + 1,
        forall|k: int| 0 <= k < made0.len() ==> made[k] == made0[k],
        made.last().members@ == members,
        made.last().author@ == author,
        made.last().message@ == message,
        all_separated(made0, delta),
        members.len() > 0,
        forall|a: int| 0 <= a < members.len() ==> members[0].0 <= (#[trigger] members[a]).0,
        boundary is Some ==> members[0].0 - boundary->0 > delta,
        forall|k: int|
            0 <= k < made0.len() && same_key((#[trigger] made0[k]).author@, made0[k].message@, author, message)
                ==> boundary is Some && forall|a: int|
                0 <= a < made0[k].members@.len() ==> (#[trigger] made0[k].members@[a]).0 <= boundary->0,
    ensures
        all_separated(made, delta),
{
    reveal(separated);
    let n = made0.len() as int;
    assert forall|i: int, j: int| 0 <= i < made.len() && 0 <= j < made.len() && i != j implies separated(
        #[trigger] made[i],
        #[trigger] made[j],
        delta,
    ) by {
        if i < n && j < n {
            assert(made[i] == made0[i] && made[j] == made0[j]);
            assert(separated(made0[i], made0[j], delta));
        } else if i == n {
            if made[i].author@ == made[j].author@ && made[i].message@ == made[j].message@ {
                assert(made[j] == made0[j]);
                assert(same_key(made0[j].author@, made0[j].message@, author, message));
                assert forall|a: int, b: int|
                    0 <= a < made[i].members@.len() && 0 <= b < made[j].members@.len() implies (#[trigger] made[i].members@[a].0 as int
                        - #[trigger] made[j].members@[b].0 as int > delta || made[j].members@[b].0 as int
                        - made[i].members@[a].0 as int > delta) by {
                    assert(made0[j].members@[b].0 <= boundary->0);
                    assert(members[0].0 <= members[a].0);
                }
            }
        } else {
            if made[i].author@ == made[j].author@ && made[i].message@ == made[j].message@ {
                assert(made[i] == made0[i]);
                assert(same_key(made0[i].author@, made0[i].message@, author, message));
                assert forall|a: int, b: int|
                    0 <= a < made[i].members@.len() && 0 <= b < made[j].members@.len() implies (#[trigger] made[i].members@[a].0 as int
                        - #[trigger] made[j].members@[b].0 as int > delta || made[j].members@[b].0 as int
                        - made[i].members@[a].0 as int > delta) by {
                    assert(made0[i].members@[a].0 <= boundary->0);
                    assert(members[0].0 <= members[b].0);
                }
            }
        }
    }
}

/// Separation depends only on the authors, messages and members.
proof fn lemma_separated_views(p: PatchSet, q: PatchSet, p2: PatchSet, q2: PatchSet, delta: u64)
    requires
        p.author@ == p2.author@,
        p.message@ == p2.message@,
        p.members == p2.members,
        q.author@ == q2.author@,
        q.message@ == q2.message@,
        q.members == q2.members,
        separated(p, q, delta),
    ensures
        separated(p2, q2, delta),
{
    reveal(separated);
}

/// Before any patchset is taken out, all members are in the heap.
proof fn lemma_untaken_all(made: Seq<PatchSet>, n: nat)
    requires
        n <= made.len(),
    ensures
        untaken_members(made, Seq::new(made.len(), |i: int| false), n) == all_members(made.subrange(0, n as int)),
    decreases n,
{
    if n > 0 {
        lemma_untaken_all(made, (n - 1) as nat);
        assert(made.subrange(0, n as int).drop_last() =~= made.subrange(0, n - 1));
    }
}

/// With no item left in the outer heap, no members are left either.
proof fn lemma_untaken_none(made: Seq<PatchSet>, taken: Seq<bool>, n: nat, x: (u64, u64))
    requires
        untaken_items(made, taken, n).len() == 0,
    ensures
        untaken_members(made, taken, n).count(x) == 0,
    decreases n,
{
    if n > 0 {
        if !taken[n - 1] {
            assert(untaken_items(made, taken, n).contains((made[n - 1].time, (n - 1) as u64)));
        }
        lemma_untaken_none(made, taken, (n - 1) as nat, x);
    }
}

/// The index of the last entry for `path`, if any.
pub open spec fn last_entry_for(files: Seq<(Seq<u8>, Option<u64>)>, path: Seq<u8>) -> Option<int>
    decreases files.len(),
{
    if files.len() == 0 {
        None
    } else if files.last().0 == path {
        Some(files.len() - 1)
    } else {
        last_entry_for(files.drop_last(), path)
    }
}

/// The ids folded into the patchset for `path`, in order.
pub open spec fn ids_for(files: Seq<(Seq<u8>, Option<u64>)>, path: Seq<u8>) -> Seq<Option<u64>>
    decreases files.len(),
{
    if files.len() == 0 {
        Seq::empty()
    } else if files.last().0 == path {
        ids_for(files.drop_last(), path).push(files.last().1)
    } else {
        ids_for(files.drop_last(), path)
    }
}

impl PatchSet {
    /// The content id of `path` after the patchset: the last id folded in
    /// for it (`Some(None)` where that commit deletes the file), or `None`
    /// where the patchset does not touch the file.
    pub fn file_content(&self, path: &[u8]) -> (r: Option<Option<u64>>)
        ensures
            match last_entry_for(files_view(self.files@), path@) {
                None => r is None,
                Some(k) => r == Some(files_view(self.files@)[k].1),
            },
    {
        let ghost fv = files_view(self.files@);
        let mut i = self.files.len();
        assert(fv.subrange(0, i as int) =~= fv);
        while i > 0
            invariant
                i <= self.files@.len(),
                fv == files_view(self.files@),
                last_entry_for(fv, path@) == last_entry_for(fv.subrange(0, i as int), path@),
            decreases i,
        {
            let ghost sub = fv.subrange(0, i as int);
            assert(sub.drop_last() =~= fv.subrange(0, i - 1));
            assert(sub.last() == (self.files@[i - 1].0@, self.files@[i - 1].1));
            if bytes_eq(self.files[i - 1].0.as_slice(), path) {
                return Some(self.files[i - 1].1);
            }
            i = i - 1;
        }
        None
    }

    /// All ids folded into the patchset for `path`, in the order they were
    /// committed.
    pub fn file_revisions(&self, path: &[u8]) -> (r: Vec<Option<u64>>)
        ensures
            r@ == ids_for(files_view(self.files@), path@),
    {
        let ghost fv = files_view(self.files@);
        let mut out: Vec<Option<u64>> = Vec::new();
        let mut i: usize = 0;
        while i < self.files.len()
            invariant
                i <= self.files@.len(),
                fv == files_view(self.files@),
                out@ == ids_for(fv.subrange(0, i as int), path@),
            decreases self.files@.len() - i,
        {
            let ghost sub = fv.subrange(0, i + 1);
            assert(sub.drop_last() =~= fv.subrange(0, i as int));
            assert(sub.last() == (self.files@[i as int].0@, self.files@[i as int].1));
            if bytes_eq(self.files[i].0.as_slice(), path) {
                out.push(self.files[i].1);
            }
            i = i + 1;
        }
        assert(fv.subrange(0, i as int) =~= fv);
        out
    }

    /// The number of file commits folded into the patchset.
    pub fn len(&self) -> (r: usize)
        ensures
            r == self.files@.len(),
    {
        self.files.len()
    }
}

/// A copy of a patchset.
fn copy_patchset(p: &PatchSet) -> (r: PatchSet)
    ensures
        r.time == p.time,
        r.author@ == p.author@,
        r.message@ == p.message@,
        files_view(r.files@) == files_view(p.files@),
        r.members == p.members,
{
    let mut files: Vec<(Vec<u8>, Option<u64>)> = Vec::new();
    let mut i: usize = 0;
    while i < p.files.len()
        invariant
            i <= p.files@.len(),
            files_view(files@) == files_view(p.files@).subrange(0, i as int),
        decreases p.files@.len() - i,
    {
        let e = (copy_bytes(p.files[i].0.as_slice()), p.files[i].1);
        let ghost f0 = files@;
        files.push(e);
        assert(files_view(files@) =~= files_view(f0).push((e.0@, e.1)));
        assert(files_view(p.files@)[i as int] == (p.files@[i as int].0@, p.files@[i as int].1));
        assert(files_view(files@) =~= files_view(p.files@).subrange(0, i + 1));
        i = i + 1;
    }
    assert(files_view(p.files@).subrange(0, i as int) =~= files_view(p.files@));
    PatchSet {
        time: p.time,
        author: copy_bytes(p.author.as_slice()),
        message: copy_bytes(p.message.as_slice()),
        files,
        members: p.members,
    }
}

/// Whether two byte strings are equal.
pub fn bytes_eq(a: &[u8], b: &[u8]) -> (r: bool)
    ensures
        r == (a@ == b@),
{
    if a.len() != b.len() {
        return false;
    }
    let mut i: usize = 0;
    while i < a.len()
        invariant
            a@.len() == b@.len(),
            i <= a@.len(),
            forall|j: int| 0 <= j < i ==> a@[j] == b@[j],
        decreases a@.len() - i,
    {
        if a[i] != b[i] {
            return false;
        }
        i = i + 1;
    }
    assert(a@ =~= b@);
    true
}

/// A file commit as path, id, author and message.
pub open spec fn entry_view(c: FileCommit) -> (Seq<u8>, Option<u64>, Seq<u8>, Seq<u8>) {
    (c.path@, c.id, c.author@, c.message@)
}

/// The file commits handed to a detector, as path, id, author and message.
pub open spec fn commit_entries(cs: Seq<FileCommit>) -> Seq<(Seq<u8>, Option<u64>, Seq<u8>, Seq<u8>)> {
    cs.map_values(|c: FileCommit| entry_view(c))
}

/// The file entries of a patchset, each with the patchset's author and
/// message.
pub open spec fn patchset_entries(p: PatchSet) -> Seq<(Seq<u8>, Option<u64>, Seq<u8>, Seq<u8>)> {
    files_view(p.files@).map_values(
        |f: (Seq<u8>, Option<u64>)| (f.0, f.1, p.author@, p.message@),
    )
}

/// The file entries of all the patchsets, one after the other.
pub open spec fn all_entries(ps: Seq<PatchSet>) -> Seq<(Seq<u8>, Option<u64>, Seq<u8>, Seq<u8>)>
    decreases ps.len(),
{
    if ps.len() == 0 {
        Seq::empty()
    } else {
        all_entries(ps.drop_last()) + patchset_entries(ps.last())
    }
}

/// The members of all the patchsets, one after the other.
pub open spec fn flat_members(ps: Seq<PatchSet>) -> Seq<(u64, u64)>
    decreases ps.len(),
{
    if ps.len() == 0 {
        Seq::empty()
    } else {
        flat_members(ps.drop_last()) + ps.last().members@
    }
}

pub open spec fn member_entry(cs: Seq<FileCommit>) -> spec_fn((u64, u64)) -> (Seq<u8>, Option<u64>, Seq<u8>, Seq<u8>) {
    |x: (u64, u64)| entry_view(cs[x.1 as int])
}

pub open spec fn index_items(cs: Seq<FileCommit>) -> Seq<(u64, u64)> {
    Seq::new(cs.len(), |i: int| (cs[i].time, i as u64))
}

/// Two sequences with the same items keep the same items when mapped.
proof fn lemma_map_same_items<A, B>(m: Seq<A>, s: Seq<A>, f: spec_fn(A) -> B)
    requires
        m.to_multiset() == s.to_multiset(),
    ensures
        m.map_values(f).to_multiset() == s.map_values(f).to_multiset(),
    decreases m.len(),
{
    if m.len() == 0 {
        vstd::seq_lib::to_multiset_len(m);
        vstd::seq_lib::to_multiset_len(s);
        assert(s.len() == 0);
        assert(m.map_values(f) =~= s.map_values(f));
    } else {
        let x = m.last();
        let m1 = m.drop_last();
        assert(m =~= m1.push(x));
        assert(m.to_multiset() =~= m1.to_multiset().insert(x));
        assert(s.to_multiset().count(x) > 0);
        assert(s.contains(x));
        let j = choose|j: int| 0 <= j < s.len() && s[j] == x;
        let s1 = s.remove(j);
        assert(s1.to_multiset() =~= s.to_multiset().remove(x));
        assert(m1.to_multiset() =~= s1.to_multiset());
        lemma_map_same_items(m1, s1, f);
        let ms = s.map_values(f);
        assert(ms.remove(j) =~= s1.map_values(f));
        assert(ms.remove(j).to_multiset() =~= ms.to_multiset().remove(f(x)));
        assert(ms.contains(f(x))) by {
            assert(ms[j] == f(x));
        }
        assert(ms.to_multiset().count(f(x)) > 0);
        assert(m.map_values(f) =~= m1.map_values(f).push(f(x)));
        assert(m.map_values(f).to_multiset() =~= m1.map_values(f).to_multiset().insert(f(x)));
        assert(ms.to_multiset() =~= ms.remove(j).to_multiset().insert(f(x)));
    }
}

proof fn lemma_all_members_flat(ps: Seq<PatchSet>)
    ensures
        all_members(ps) == flat_members(ps).to_multiset(),
    decreases ps.len(),
{
    if ps.len() > 0 {
        lemma_all_members_flat(ps.drop_last());
        vstd::seq_lib::lemma_multiset_commutative(flat_members(ps.drop_last()), ps.last().members@);
    } else {
        assert(flat_members(ps).to_multiset() =~= Multiset::empty());
    }
}

proof fn lemma_commit_items_index(cs: Seq<FileCommit>)
    requires
        cs.len() <= u64::MAX,
    ensures
        commit_items(cs) == index_items(cs).to_multiset(),
    decreases cs.len(),
{
    if cs.len() > 0 {
        let c1 = cs.drop_last();
        lemma_commit_items_index(c1);
        assert(index_items(cs) =~= index_items(c1).push((cs.last().time, (cs.len() - 1) as u64)));
    } else {
        assert(index_items(cs).to_multiset() =~= Multiset::empty());
    }
}

proof fn lemma_entries_flat(ps: Seq<PatchSet>, cs: Seq<FileCommit>, delta: u64)
    requires
        forall|k: int| 0 <= k < ps.len() ==> patchset_ok(#[trigger] ps[k], cs, delta),
    ensures
        all_entries(ps) == flat_members(ps).map_values(member_entry(cs)),
    decreases ps.len(),
{
    if ps.len() > 0 {
        let p0 = ps.drop_last();
        assert forall|k: int| 0 <= k < p0.len() implies patchset_ok(#[trigger] p0[k], cs, delta) by {
            assert(p0[k] == ps[k]);
        }
        lemma_entries_flat(p0, cs, delta);
        let p = ps.last();
        assert(patchset_ok(ps[ps.len() - 1], cs, delta));
        let f = member_entry(cs);
        assert forall|k: int| 0 <= k < p.members@.len() implies #[trigger] patchset_entries(p)[k] == f(
            p.members@[k],
        ) by {
            let (t, i) = p.members@[k];
            assert(files_view(p.files@)[k] == (cs[i as int].path@, cs[i as int].id));
        }
        assert(patchset_entries(p) =~= p.members@.map_values(f));
        assert((flat_members(p0) + p.members@).map_values(f) =~= flat_members(p0).map_values(f)
            + p.members@.map_values(f));
    } else {
        assert(flat_members(ps).map_values(member_entry(cs)) =~= Seq::empty());
    }
}

/// Every file commit handed to the detector comes out in exactly one
/// patchset, with its path, id, author and message, and nothing else
/// comes out.
pub proof fn lemma_patchsets_partition(ps: Seq<PatchSet>, cs: Seq<FileCommit>, delta: u64)
    requires
        cs.len() <= u64::MAX,
        all_members(ps) == commit_items(cs),
        forall|k: int| 0 <= k < ps.len() ==> patchset_ok(#[trigger] ps[k], cs, delta),
    ensures
        all_entries(ps).to_multiset() == commit_entries(cs).to_multiset(),
{
    lemma_all_members_flat(ps);
    lemma_commit_items_index(cs);
    lemma_entries_flat(ps, cs, delta);
    let f = member_entry(cs);
    lemma_map_same_items(flat_members(ps), index_items(cs), f);
    assert(index_items(cs).map_values(f) =~= commit_entries(cs));
}

} // verus!
