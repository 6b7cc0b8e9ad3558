//! Dotted-decimal revision numbers of RCS files.
use vstd::prelude::*;

verus! {

/// Errors of the revision-number algebra.
#[derive(Debug, Clone, Copy, PartialEq, Eq)]
pub enum NumError {
    /// The text is not a dotted sequence of decimal numbers.
    MalformedRevision,
    /// `contains` was asked of something other than a branch and a commit.
    InvalidTypesForContains,
}

/// A revision number within a `,v` file, such as `1.1` or `1.1.2.2.2.1`.
///
/// Branches have an odd number of components, commits an even number. Zero
/// components (the `X.Y.0.Z` form that CVS uses for branches in symbol
/// tables) are removed on parsing.
#[derive(Debug, Clone, PartialEq, Eq, PartialOrd, Ord, Hash)]
pub enum Num {
    Branch(Vec<u64>),
    Commit(Vec<u64>),
}

pub open spec fn is_digit(c: u8) -> bool {
    48 <= c <= 57
}

/// The value of a run of decimal digits.
pub open spec fn digits_value(s: Seq<u8>) -> nat
    decreases s.len(),
{
    if s.len() == 0 {
        0
    } else {
        digits_value(s.drop_last()) * 10 + (s.last() - 48) as nat
    }
}

/// Index of the first `.` at or after `start`, or the length if there is none.
pub open spec fn component_end(s: Seq<u8>, start: int) -> int
    recommends
        0 <= start <= s.len(),
    decreases s.len() - start,
{
    if start >= s.len() || s[start] == 46u8 {
        start
    } else {
        component_end(s, start + 1)
    }
}

/// A component is a non-empty run of digits whose value fits in 64 bits.
pub open spec fn valid_component(c: Seq<u8>) -> bool {
    &&& c.len() > 0
    &&& forall|i: int| 0 <= i < c.len() ==> is_digit(#[trigger] c[i])
    &&& digits_value(c) <= u64::MAX
}

/// The non-zero components of the dotted text from `start` on, or `None` where
/// a component is empty, holds a non-digit or overflows.
pub open spec fn parse_parts_from(s: Seq<u8>, start: int) -> Option<Seq<u64>>
    recommends
        0 <= start <= s.len(),
    decreases s.len() - start,
    when 0 <= start <= s.len()
{
    let end = component_end(s, start);
    let comp = s.subrange(start, end);
    if end < start || end > s.len() || !valid_component(comp) {
        None
    } else {
        let rest = if end >= s.len() {
            Some(Seq::<u64>::empty())
        } else {
            parse_parts_from(s, end + 1)
        };
        let v = digits_value(comp);
        match rest {
            None => None,
            Some(r) => if v == 0 {
                Some(r)
            } else {
                Some(seq![v as u64] + r)
            },
        }
    }
}

pub open spec fn num_from_parts(parts: Seq<u64>) -> (bool, Seq<u64>) {
    (parts.len() % 2 == 1, parts)
}

/// What parsing `s` yields: whether it is a branch, and its components.
pub open spec fn parse_spec(s: Seq<u8>) -> Option<(bool, Seq<u64>)> {
    match parse_parts_from(s, 0) {
        None => None,
        Some(p) => if p.len() == 0 {
            None
        } else {
            Some(num_from_parts(p))
        },
    }
}

/// Decimal text of `v`, without leading zeros.
pub open spec fn decimal(v: nat) -> Seq<u8>
    decreases v,
{
    if v < 10 {
        seq![(v + 48) as u8]
    } else {
        decimal(v / 10) + seq![((v % 10) + 48) as u8]
    }
}

/// The components joined by `.`.
pub open spec fn dotted(parts: Seq<u64>) -> Seq<u8>
    decreases parts.len(),
{
    if parts.len() == 0 {
        Seq::empty()
    } else if parts.len() == 1 {
        decimal(parts[0] as nat)
    } else {
        decimal(parts[0] as nat) + seq![46u8] + dotted(parts.drop_first())
    }
}

/// Whether a commit with components `c` lies on the branch `b` or on one of
/// its ancestors, up to the branch point.
/// The commit's `k`-th pair of components stays within the branch's: same
/// branch number, and a revision no later than the branch point.
pub open spec fn pair_within(b: Seq<u64>, c: Seq<u64>, k: int) -> bool {
    c[2 * k] == b[2 * k] && c[2 * k + 1] <= b[2 * k + 1]
}

pub open spec fn contains_spec(b: Seq<u64>, c: Seq<u64>) -> bool {
    &&& c.len() <= b.len() + 1
    &&& forall|k: int|
        0 <= k && 2 * k + 1 < b.len() && 2 * k + 1 < c.len() ==> #[trigger] pair_within(b, c, k)
    &&& (b.len() - 1 < c.len() ==> c[b.len() - 1] == b[b.len() - 1])
}

impl Num {
    pub open spec fn parts(&self) -> Seq<u64> {
        match self {
            Num::Branch(p) => p@,
            Num::Commit(p) => p@,
        }
    }

    pub open spec fn is_branch(&self) -> bool {
        self is Branch
    }

    /// A branch has an odd number of components, a commit an even and
    /// non-zero number, and no component is zero.
    pub open spec fn wf(&self) -> bool {
        &&& self.parts().len() > 0
        &&& (self.parts().len() % 2 == 1 <==> self.is_branch())
        &&& forall|i: int| 0 <= i < self.parts().len() ==> #[trigger] self.parts()[i] != 0
    }

    /// Decides whether `self`, a branch, contains the commit `other`: the
    /// commit is on the branch itself or on an ancestor before the branch
    /// point.
    pub fn contains(&self, other: &Num) -> (r: Result<bool, NumError>)
        requires
            self.wf(),
            other.wf(),
        ensures
            !(self is Branch && other is Commit) ==> r == Err::<bool, NumError>(
                NumError::InvalidTypesForContains,
            ),
            (self is Branch && other is Commit) ==> r == Ok::<bool, NumError>(
                contains_spec(self.parts(), other.parts()),
            ),
    {
        let branch = match self {
            Num::Branch(b) => b,
            Num::Commit(_) => {
                return Err(NumError::InvalidTypesForContains);
            },
        };
        let commit = match other {
            Num::Commit(c) => c,
            Num::Branch(_) => {
                return Err(NumError::InvalidTypesForContains);
            },
        };
        let bl = branch.len();
        let cl = commit.len();
        if cl > bl && cl - bl > 1 {
            return Ok(false);
        }
        let mut i: usize = 0;
        while i + 1 < bl
            invariant
                self is Branch,
                other is Commit,
                self.parts() == branch@,
                other.parts() == commit@,
                bl == branch@.len(),
                cl == commit@.len(),
                cl % 2 == 0,
                bl % 2 == 1,
                cl <= bl + 1,
                i % 2 == 0,
                i <= bl,
                forall|k: int|
                    0 <= k && 2 * k < i && 2 * k + 1 < bl && 2 * k + 1 < cl ==> #[trigger] pair_within(
                        branch@,
                        commit@,
                        k,
                    ),
            decreases bl - i,
        {
            if i >= cl {
                // The commit is shallower than the branch: an ancestor.
                assert(contains_spec(branch@, commit@));
                return Ok(true);
            }
            assert(i + 1 < cl);
            if commit[i] != branch[i] {
                assert(!pair_within(branch@, commit@, (i / 2) as int));
                return Ok(false);
            }
            if commit[i + 1] > branch[i + 1] {
                assert(!pair_within(branch@, commit@, (i / 2) as int));
                return Ok(false);
            }
            assert(pair_within(branch@, commit@, (i / 2) as int));
            i = i + 2;
        }
        assert forall|k: int|
            0 <= k && 2 * k + 1 < bl && 2 * k + 1 < cl implies #[trigger] pair_within(
                branch@,
                commit@,
                k,
            ) by {
            assert(0 <= k && 2 * k < i && 2 * k + 1 < bl && 2 * k + 1 < cl);
        }
        if bl - 1 < cl {
            if commit[bl - 1] != branch[bl - 1] {
                return Ok(false);
            }
        }
        assert(contains_spec(branch@, commit@));
        Ok(true)
    }

    /// The branch that a commit is on; a branch is its own branch.
    pub fn to_branch(&self) -> (r: Num)
        requires
            self.wf(),
        ensures
            r is Branch,
            self is Branch ==> r.parts() == self.parts(),
            self is Commit ==> r.parts() == self.parts().drop_last(),
            r.wf(),
    {
        match self {
            Num::Branch(p) => Num::Branch(clone_parts(p)),
            Num::Commit(p) => {
                let mut out: Vec<u64> = Vec::new();
                let n = p.len() - 1;
                let mut i: usize = 0;
                while i < n
                    invariant
                        n == p@.len() - 1,
                        i <= n,
                        out@ == p@.subrange(0, i as int),
                    decreases n - i,
                {
                    out.push(p[i]);
                    i = i + 1;
                }
                assert(out@ =~= p@.drop_last());
                Num::Branch(out)
            },
        }
    }

    /// Parses dotted-decimal text such as `1.2.0.3`; zero components are
    /// dropped and the parity of what remains decides branch or commit. Text
    /// with no non-zero component is malformed.
    pub fn parse(input: &[u8]) -> (r: Result<Num, NumError>)
        ensures
            match parse_spec(input@) {
                None => r == Err::<Num, NumError>(NumError::MalformedRevision),
                Some((is_branch, parts)) => r is Ok && r->Ok_0.is_branch() == is_branch
                    && r->Ok_0.parts() == parts,
            },
    {
        match parse_parts(input) {
            None => Err(NumError::MalformedRevision),
            Some(parts) => {
                if parts.len() == 0 {
                    return Err(NumError::MalformedRevision);
                }
                if parts.len() % 2 == 0 {
                    Ok(Num::Commit(parts))
                } else {
                    Ok(Num::Branch(parts))
                }
            },
        }
    }

    /// A copy of the number.
    pub fn copy(&self) -> (r: Num)
        ensures
            r.is_branch() == self.is_branch(),
            r.parts() == self.parts(),
    {
        match self {
            Num::Branch(p) => Num::Branch(clone_parts(p)),
            Num::Commit(p) => Num::Commit(clone_parts(p)),
        }
    }

    /// Whether the number is well formed.
    pub fn is_wf(&self) -> (r: bool)
        ensures
            r == self.wf(),
    {
        let (p, b) = match self {
            Num::Branch(p) => (p, true),
            Num::Commit(p) => (p, false),
        };
        if p.len() == 0 || (p.len() % 2 == 1) != b {
            return false;
        }
        let mut i: usize = 0;
        while i < p.len()
            invariant
                i <= p@.len(),
                p@ == self.parts(),
                forall|j: int| 0 <= j < i ==> p@[j] != 0,
            decreases p@.len() - i,
        {
            if p[i] == 0 {
                assert(self.parts()[i as int] == 0);
                return false;
            }
            i = i + 1;
        }
        true
    }

    /// The dotted-decimal text of the number.
    pub fn to_bytes(&self) -> (r: Vec<u8>)
        ensures
            r@ == dotted(self.parts()),
    {
        match self {
            Num::Branch(p) => fmt_u64_slice(p.as_slice()),
            Num::Commit(p) => fmt_u64_slice(p.as_slice()),
        }
    }
}

impl std::str::FromStr for Num {
    type Err = NumError;

    fn from_str(s: &str) -> Result<Num, NumError> {
        Num::parse(s.as_bytes())
    }
}

fn clone_parts(p: &Vec<u64>) -> (r: Vec<u64>)
    ensures
        r@ == p@,
{
    let mut out: Vec<u64> = Vec::new();
    let mut i: usize = 0;
    while i < p.len()
        invariant
            i <= p@.len(),
            out@ == p@.subrange(0, i as int),
        decreases p@.len() - i,
    {
        out.push(p[i]);
        i = i + 1;
    }
    assert(out@ =~= p@);
    out
}

/// Index of the first `.` at or after `start`.
fn find_component_end(s: &[u8], start: usize) -> (r: usize)
    requires
        start <= s@.len(),
    ensures
        r as int == component_end(s@, start as int),
        start <= r <= s@.len(),
{
    let mut i = start;
    while i < s.len() && s[i] != 46u8
        invariant
            start <= i <= s@.len(),
            component_end(s@, start as int) == component_end(s@, i as int),
        decreases s@.len() - i,
    {
        i = i + 1;
    }
    i
}

proof fn lemma_digits_value_push(s: Seq<u8>, c: u8)
    ensures
        digits_value(s.push(c)) == digits_value(s) * 10 + (c - 48) as nat,
{
    assert(s.push(c).drop_last() =~= s);
}

/// Reads the component `s[start..end]`, or `None` where it is not valid.
pub(crate) fn read_component(s: &[u8], start: usize, end: usize) -> (r: Option<u64>)
    requires
        start <= end <= s@.len(),
    ensures
        valid_component(s@.subrange(start as int, end as int)) <==> r is Some,
        r is Some ==> r->0 == digits_value(s@.subrange(start as int, end as int)),
{
    if start == end {
        return None;
    }
    let mut v: u64 = 0;
    let mut i = start;
    while i < end
        invariant
            start <= i <= end,
            end <= s@.len(),
            forall|j: int| start <= j < i ==> is_digit(#[trigger] s@[j]),
            v == digits_value(s@.subrange(start as int, i as int)),
        decreases end - i,
    {
        let c = s[i];
        if c < 48 || c > 57 {
            assert(!is_digit(s@.subrange(start as int, end as int)[i - start]));
            return None;
        }
        proof {
            lemma_digits_value_push(s@.subrange(start as int, i as int), c);
            assert(s@.subrange(start as int, i as int).push(c) =~= s@.subrange(
                start as int,
                i + 1,
            ));
        }
        let d = (c - 48) as u64;
        if v > (u64::MAX - d) / 10 {
            proof {
                let comp = s@.subrange(start as int, end as int);
                if forall|j: int| 0 <= j < comp.len() ==> is_digit(#[trigger] comp[j]) {
                    lemma_digits_value_grows(comp, (i + 1 - start) as int);
                    assert(comp.subrange(0, i + 1 - start) =~= s@.subrange(start as int, i + 1));
                }
                assert(v * 10 + d > u64::MAX) by (nonlinear_arith)
                    requires
                        v > (u64::MAX - d) / 10,
                        d <= 9,
                ;
            }
            return None;
        }
        assert(v * 10 + d <= u64::MAX) by (nonlinear_arith)
            requires
                v <= (u64::MAX - d) / 10,
                d <= 9,
        ;
        v = v * 10 + d;
        i = i + 1;
    }
    assert(s@.subrange(start as int, end as int) =~= s@.subrange(start as int, i as int));
    Some(v)
}

/// A prefix of a digit run is never worth more than the whole run.
pub(crate) proof fn lemma_digits_value_grows(s: Seq<u8>, k: int)
    requires
        0 <= k <= s.len(),
        forall|i: int| 0 <= i < s.len() ==> is_digit(#[trigger] s[i]),
    ensures
        digits_value(s.subrange(0, k)) <= digits_value(s),
    decreases s.len() - k,
{
    if k < s.len() {
        lemma_digits_value_grows(s, k + 1);
        let p = s.subrange(0, k);
        assert(s.subrange(0, k + 1).drop_last() =~= p);
        assert(is_digit(s[k]));
    } else {
        assert(s.subrange(0, k) =~= s);
    }
}

/// The non-zero components of dotted text.
fn parse_parts(s: &[u8]) -> (r: Option<Vec<u64>>)
    ensures
        match parse_parts_from(s@, 0) {
            None => r is None,
            Some(p) => r is Some && r->0@ == p,
        },
{
    let mut acc: Vec<u64> = Vec::new();
    let mut start: usize = 0;
    loop
        invariant
            start <= s@.len(),
            parse_parts_from(s@, 0) == match parse_parts_from(s@, start as int) {
                None => None,
                Some(p) => Some(acc@ + p),
            },
        decreases s@.len() - start,
    {
        let end = find_component_end(s, start);
        let v = match read_component(s, start, end) {
            None => {
                return None;
            },
            Some(v) => v,
        };
        if v != 0 {
            acc.push(v);
        }
        if end >= s.len() {
            proof {
                assert(acc@ =~= acc@ + Seq::<u64>::empty());
                if v != 0 {
                    assert(acc@.drop_last() + (seq![v] + Seq::<u64>::empty()) =~= acc@);
                }
            }
            return Some(acc);
        }
        proof {
            let old_acc = if v != 0 {
                acc@.drop_last()
            } else {
                acc@
            };
            match parse_parts_from(s@, end + 1) {
                None => {},
                Some(p) => {
                    if v != 0 {
                        assert(old_acc + (seq![v] + p) =~= acc@ + p);
                    }
                },
            }
        }
        start = end + 1;
    }
}

/// Appends the decimal text of `v`.
pub fn push_decimal(out: &mut Vec<u8>, v: u64)
    ensures
        final(out)@ == old(out)@ + decimal(v as nat),
    decreases v,
{
    if v >= 10 {
        push_decimal(out, v / 10);
    }
    out.push(((v % 10) + 48) as u8);
    proof {
        if v >= 10 {
            assert(old(out)@ + decimal(v as nat) =~= old(out)@ + decimal((v / 10) as nat) + seq![((v % 10) + 48) as u8]);
        } else {
            assert(old(out)@ + decimal(v as nat) =~= old(out)@.push(((v % 10) + 48) as u8));
        }
    }
}

/// Joins the components with `.`.
pub fn fmt_u64_slice(input: &[u64]) -> (r: Vec<u8>)
    ensures
        r@ == dotted(input@),
{
    let mut out: Vec<u8> = Vec::new();
    let n = input.len();
    if n == 0 {
        return out;
    }
    // Built from the last component backwards, so that each step matches the
    // recursion of `dotted`.
    let mut i: usize = n - 1;
    let mut tail: Vec<u8> = Vec::new();
    push_decimal(&mut tail, input[i]);
    assert(tail@ =~= dotted(input@.subrange(i as int, n as int)));
    while i > 0
        invariant
            n == input@.len(),
            i < n,
            tail@ == dotted(input@.subrange(i as int, n as int)),
        decreases i,
    {
        let mut head: Vec<u8> = Vec::new();
        push_decimal(&mut head, input[i - 1]);
        head.push(46u8);
        let mut j: usize = 0;
        let ghost head0 = head@;
        while j < tail.len()
            invariant
                j <= tail@.len(),
                head@ == head0 + tail@.subrange(0, j as int),
            decreases tail@.len() - j,
        {
            head.push(tail[j]);
            j = j + 1;
        }
        proof {
            let sub = input@.subrange(i - 1, n as int);
            assert(sub.drop_first() =~= input@.subrange(i as int, n as int));
            assert(tail@.subrange(0, j as int) =~= tail@);
            assert(head@ =~= dotted(sub));
        }
        tail = head;
        i = i - 1;
    }
    assert(input@.subrange(0, n as int) =~= input@);
    tail
}

proof fn lemma_decimal_digits(v: nat)
    ensures
        decimal(v).len() > 0,
        forall|i: int| 0 <= i < decimal(v).len() ==> is_digit(#[trigger] decimal(v)[i]),
        digits_value(decimal(v)) == v,
    decreases v,
{
    let d = decimal(v);
    if v >= 10 {
        lemma_decimal_digits(v / 10);
        assert(d.drop_last() =~= decimal(v / 10));
        assert(d.last() == ((v % 10) + 48) as u8);
        assert(d.last() as int == (v % 10) + 48);
        assert(digits_value(d) == digits_value(decimal(v / 10)) * 10 + (v % 10));
        assert((v / 10) * 10 + v % 10 == v) by (nonlinear_arith);
        assert(digits_value(d) == v);
    } else {
        assert(d.drop_last() =~= Seq::<u8>::empty());
        assert(digits_value(Seq::<u8>::empty()) == 0);
        assert(d.last() as int == v + 48);
        assert(digits_value(d) == v);
    }
}

proof fn lemma_component_end_over_digits(s: Seq<u8>, start: int, end: int)
    requires
        0 <= start <= end <= s.len(),
        forall|i: int| start <= i < end ==> is_digit(#[trigger] s[i]),
        end == s.len() || s[end] == 46u8,
    ensures
        component_end(s, start) == end,
    decreases end - start,
{
    if start < end {
        lemma_component_end_over_digits(s, start + 1, end);
    }
}

/// The dotted text of non-zero components reads back as those components,
/// from any position at which it is embedded.
proof fn lemma_parse_dotted(pre: Seq<u8>, parts: Seq<u64>)
    requires
        parts.len() > 0,
        forall|i: int| 0 <= i < parts.len() ==> #[trigger] parts[i] != 0,
    ensures
        parse_parts_from(pre + dotted(parts), pre.len() as int) == Some(parts),
    decreases parts.len(),
{
    let s = pre + dotted(parts);
    let k = pre.len() as int;
    let d = decimal(parts[0] as nat);
    lemma_decimal_digits(parts[0] as nat);
    assert forall|i: int| k <= i < k + d.len() implies is_digit(#[trigger] s[i]) by {
        assert(s[i] == d[i - k]);
    }
    if parts.len() == 1 {
        assert(s =~= pre + d);
        lemma_component_end_over_digits(s, k, k + d.len());
        assert(s.subrange(k, k + d.len()) =~= d);
        assert(seq![parts[0]] + Seq::<u64>::empty() =~= parts);
    } else {
        let rest = parts.drop_first();
        assert(s =~= (pre + d + seq![46u8]) + dotted(rest));
        assert(s[k + d.len()] == 46u8);
        lemma_component_end_over_digits(s, k, k + d.len());
        assert(s.subrange(k, k + d.len()) =~= d);
        assert forall|i: int| 0 <= i < rest.len() implies #[trigger] rest[i] != 0 by {
            assert(rest[i] == parts[i + 1]);
        }
        lemma_parse_dotted(pre + d + seq![46u8], rest);
        assert(seq![parts[0]] + rest =~= parts);
    }
}

/// Reading back the text of a well-formed revision number gives the same
/// number.
pub proof fn lemma_text_round_trip(n: Num)
    requires
        n.wf(),
    ensures
        parse_spec(dotted(n.parts())) == Some((n.is_branch(), n.parts())),
{
    lemma_parse_dotted(Seq::empty(), n.parts());
    assert(Seq::<u8>::empty() + dotted(n.parts()) =~= dotted(n.parts()));
}

} // verus!
