//! The framing of the state file: a version byte and four length-prefixed
//! blobs (file revisions, patchsets, tags, raw marks). What each blob holds,
//! and the compression around the frame, are the caller's.
use vstd::prelude::*;
use crate::bytes::{append_bytes, slice_copy};

verus! {

/// The version that this library writes and reads.
pub const STATE_VERSION: u8 = 1;

/// Why a state file could not be read.
#[derive(Debug, Clone, Copy, PartialEq, Eq)]
pub enum FrameError {
    /// The file ends inside the frame.
    Truncated,
    /// Bytes follow the last blob.
    TrailingData,
    /// The version byte is not one this library knows.
    UnknownSerialisationVersion(u8),
}

/// The four blobs of a state file.
#[derive(Debug, Clone, PartialEq, Eq)]
pub struct Frame {
    pub file_revisions: Vec<u8>,
    pub patchsets: Vec<u8>,
    pub tags: Vec<u8>,
    pub raw_marks: Vec<u8>,
}

/// `n` as eight little-endian bytes.
pub open spec fn le64(n: u64) -> Seq<u8> {
    Seq::new(8, |i: int| ((n >> (8 * i) as u64) & 0xff) as u8)
}

/// The number that eight little-endian bytes give.
pub open spec fn from_le64(b: Seq<u8>) -> u64 {
    (b[0] as u64) | ((b[1] as u64) << 8u64) | ((b[2] as u64) << 16u64) | ((b[3] as u64) << 24u64) | ((
    b[4] as u64) << 32u64) | ((b[5] as u64) << 40u64) | ((b[6] as u64) << 48u64) | ((b[7] as u64)
        << 56u64)
}

/// A blob with its length in front.
pub open spec fn blob_bytes(b: Seq<u8>) -> Seq<u8> {
    le64(b.len() as u64) + b
}

/// The bytes of a frame.
pub open spec fn frame_bytes(version: u8, f: Seq<u8>, p: Seq<u8>, t: Seq<u8>, m: Seq<u8>) -> Seq<u8> {
    seq![version] + blob_bytes(f) + blob_bytes(p) + blob_bytes(t) + blob_bytes(m)
}

/// The blob at `pos` and the index after it, or `None` where the data ends
/// first.
pub open spec fn blob_at(d: Seq<u8>, pos: int) -> Option<(Seq<u8>, int)> {
    if 0 <= pos && pos + 8 <= d.len() {
        let n = from_le64(d.subrange(pos, pos + 8));
        if pos + 8 + n <= d.len() {
            Some((d.subrange(pos + 8, pos + 8 + n), pos + 8 + n))
        } else {
            None
        }
    } else {
        None
    }
}

/// What reading a state file gives.
pub open spec fn unframe_spec(d: Seq<u8>) -> Result<(Seq<u8>, Seq<u8>, Seq<u8>, Seq<u8>), FrameError> {
    if d.len() == 0 {
        Err(FrameError::Truncated)
    } else if d[0] != STATE_VERSION {
        Err(FrameError::UnknownSerialisationVersion(d[0]))
    } else {
        match blob_at(d, 1) {
            None => Err(FrameError::Truncated),
            Some((f, e1)) => match blob_at(d, e1) {
                None => Err(FrameError::Truncated),
                Some((p, e2)) => match blob_at(d, e2) {
                    None => Err(FrameError::Truncated),
                    Some((t, e3)) => match blob_at(d, e3) {
                        None => Err(FrameError::Truncated),
                        Some((m, e4)) => if e4 == d.len() {
                            Ok((f, p, t, m))
                        } else {
                            Err(FrameError::TrailingData)
                        },
                    },
                },
            },
        }
    }
}

proof fn lemma_le64_round_trip(n: u64)
    ensures
        from_le64(le64(n)) == n,
{
    let l = le64(n);
    let b0 = l[0];
    let b1 = l[1];
    let b2 = l[2];
    let b3 = l[3];
    let b4 = l[4];
    let b5 = l[5];
    let b6 = l[6];
    let b7 = l[7];
    assert(b0 == ((n >> 0u64) & 0xff) as u8);
    assert(b1 == ((n >> 8u64) & 0xff) as u8);
    assert(b2 == ((n >> 16u64) & 0xff) as u8);
    assert(b3 == ((n >> 24u64) & 0xff) as u8);
    assert(b4 == ((n >> 32u64) & 0xff) as u8);
    assert(b5 == ((n >> 40u64) & 0xff) as u8);
    assert(b6 == ((n >> 48u64) & 0xff) as u8);
    assert(b7 == ((n >> 56u64) & 0xff) as u8);
    assert((b0 as u64) | ((b1 as u64) << 8u64) | ((b2 as u64) << 16u64) | ((b3 as u64) << 24u64) | ((
    b4 as u64) << 32u64) | ((b5 as u64) << 40u64) | ((b6 as u64) << 48u64) | ((b7 as u64) << 56u64)
        == n) by (bit_vector)
        requires
            b0 == ((n >> 0u64) & 0xff) as u8,
            b1 == ((n >> 8u64) & 0xff) as u8,
            b2 == ((n >> 16u64) & 0xff) as u8,
            b3 == ((n >> 24u64) & 0xff) as u8,
            b4 == ((n >> 32u64) & 0xff) as u8,
            b5 == ((n >> 40u64) & 0xff) as u8,
            b6 == ((n >> 48u64) & 0xff) as u8,
            b7 == ((n >> 56u64) & 0xff) as u8,
    ;
}

proof fn lemma_blob_at(pre: Seq<u8>, b: Seq<u8>, post: Seq<u8>)
    requires
        b.len() <= u64::MAX,
    ensures
        blob_at(pre + blob_bytes(b) + post, pre.len() as int) == Some(
            (b, pre.len() as int + 8 + b.len()),
        ),
{
    let d = pre + blob_bytes(b) + post;
    let k = pre.len() as int;
    let l = le64(b.len() as u64);
    assert(d.subrange(k, k + 8) =~= l);
    lemma_le64_round_trip(b.len() as u64);
    assert(d.subrange(k + 8, k + 8 + b.len()) =~= b);
}

/// Reading the bytes that a frame was written as gives the frame back.
#[verifier::rlimit(50)]
pub proof fn lemma_frame_round_trip(f: Seq<u8>, p: Seq<u8>, t: Seq<u8>, m: Seq<u8>)
    requires
        f.len() <= u64::MAX,
        p.len() <= u64::MAX,
        t.len() <= u64::MAX,
        m.len() <= u64::MAX,
    ensures
        unframe_spec(frame_bytes(STATE_VERSION, f, p, t, m)) == Ok::<
            (Seq<u8>, Seq<u8>, Seq<u8>, Seq<u8>),
            FrameError,
        >((f, p, t, m)),
{
    let d = frame_bytes(STATE_VERSION, f, p, t, m);
    let v = seq![STATE_VERSION];
    let bf = blob_bytes(f);
    let bp = blob_bytes(p);
    let bt = blob_bytes(t);
    let bm = blob_bytes(m);
    let e1: int = 9 + f.len() as int;
    let e2: int = e1 + 8 + p.len() as int;
    let e3: int = e2 + 8 + t.len() as int;
    let e4: int = e3 + 8 + m.len() as int;
    assert(d.len() == e4);
    assert(d[0] == STATE_VERSION);
    assert(blob_at(d, 1) == Some((f, e1))) by {
        assert(d =~= v + bf + (bp + bt + bm));
        lemma_blob_at(v, f, bp + bt + bm);
    }
    assert(blob_at(d, e1) == Some((p, e2))) by {
        assert(d =~= (v + bf) + bp + (bt + bm));
        lemma_blob_at(v + bf, p, bt + bm);
    }
    assert(blob_at(d, e2) == Some((t, e3))) by {
        assert(d =~= (v + bf + bp) + bt + bm);
        lemma_blob_at(v + bf + bp, t, bm);
    }
    assert(blob_at(d, e3) == Some((m, e4))) by {
        assert(d =~= (v + bf + bp + bt) + bm + Seq::<u8>::empty());
        lemma_blob_at(v + bf + bp + bt, m, Seq::<u8>::empty());
    }
}

fn push_blob(out: &mut Vec<u8>, b: &[u8])
    ensures
        final(out)@ == old(out)@ + blob_bytes(b@),
{
    let n = b.len() as u64;
    let ghost o = out@;
    let mut i: u64 = 0;
    while i < 8
        invariant
            i <= 8,
            n == b@.len() as u64,
            out@ == o + le64(n).subrange(0, i as int),
        decreases 8 - i,
    {
        out.push(((n >> (8 * i)) & 0xff) as u8);
        assert(le64(n)[i as int] == ((n >> (8 * i) as u64) & 0xff) as u8);
        assert(out@ =~= o + le64(n).subrange(0, i + 1));
        i = i + 1;
    }
    assert(le64(n).subrange(0, 8) =~= le64(n));
    append_bytes(out, b);
    assert(out@ =~= old(out)@ + blob_bytes(b@));
}

impl Frame {
    /// The bytes of the state file: the version, then each blob with its
    /// length.
    pub fn serialize(&self) -> (r: Vec<u8>)
        ensures
            r@ == frame_bytes(
                STATE_VERSION,
                self.file_revisions@,
                self.patchsets@,
                self.tags@,
                self.raw_marks@,
            ),
    {
        let mut out: Vec<u8> = Vec::new();
        out.push(STATE_VERSION);
        push_blob(&mut out, self.file_revisions.as_slice());
        push_blob(&mut out, self.patchsets.as_slice());
        push_blob(&mut out, self.tags.as_slice());
        push_blob(&mut out, self.raw_marks.as_slice());
        assert(out@ =~= frame_bytes(
            STATE_VERSION,
            self.file_revisions@,
            self.patchsets@,
            self.tags@,
            self.raw_marks@,
        ));
        out
    }

    /// Reads a state file.
    pub fn deserialize(data: &[u8]) -> (r: Result<Frame, FrameError>)
        ensures
            match unframe_spec(data@) {
                Ok((f, p, t, m)) => r matches Ok(fr) && fr.file_revisions@ == f && fr.patchsets@ == p
                    && fr.tags@ == t && fr.raw_marks@ == m,
                Err(e) => r == Err::<Frame, FrameError>(e),
            },
    {
        if data.len() == 0 {
            return Err(FrameError::Truncated);
        }
        if data[0] != STATE_VERSION {
            return Err(FrameError::UnknownSerialisationVersion(data[0]));
        }
        let (f, e1) = match read_blob(data, 1) {
            Some(x) => x,
            None => {
                return Err(FrameError::Truncated);
            },
        };
        let (p, e2) = match read_blob(data, e1) {
            Some(x) => x,
            None => {
                return Err(FrameError::Truncated);
            },
        };
        let (t, e3) = match read_blob(data, e2) {
            Some(x) => x,
            None => {
                return Err(FrameError::Truncated);
            },
        };
        let (m, e4) = match read_blob(data, e3) {
            Some(x) => x,
            None => {
                return Err(FrameError::Truncated);
            },
        };
        if e4 != data.len() {
            return Err(FrameError::TrailingData);
        }
        Ok(Frame { file_revisions: f, patchsets: p, tags: t, raw_marks: m })
    }
}

/// Reads the blob at `pos`.
fn read_blob(d: &[u8], pos: usize) -> (r: Option<(Vec<u8>, usize)>)
    requires
        pos <= d@.len(),
    ensures
        match blob_at(d@, pos as int) {
            None => r is None,
            Some((b, e)) => r matches Some((v, e2)) && v@ == b && e2 == e,
        },
        r matches Some((_, e)) ==> pos < e <= d@.len(),
{
    let n = d.len();
    if n - pos < 8 {
        return None;
    }
    let len = (d[pos] as u64) | ((d[pos + 1] as u64) << 8) | ((d[pos + 2] as u64) << 16) | ((
    d[pos + 3] as u64) << 24) | ((d[pos + 4] as u64) << 32) | ((d[pos + 5] as u64) << 40) | ((
    d[pos + 6] as u64) << 48) | ((d[pos + 7] as u64) << 56);
    let ghost w = d@.subrange(pos as int, pos + 8);
    assert(len == from_le64(w));
    if len > (n - pos - 8) as u64 {
        return None;
    }
    let len = len as usize;
    let end = pos + 8 + len;
    Some((slice_copy(d, pos + 8, end), end))
}

} // verus!
