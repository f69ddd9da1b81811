//! The buffered seekable reader: the facade callers use.
//!
//! An [`ExactReader`] wraps a single source or a virtual concatenation and
//! keeps a sliding window `[window_start, window_start + cached.len())` of the
//! stream in a ring buffer. A seek only records its target when the target
//! falls outside the window; every read first reconciles the window with the
//! cursor — reusing cached bytes, prepending exactly the gap before the
//! window, or reloading — and then copies out of the cache.

use vstd::prelude::*;

use crate::multifile::File;
use crate::multifile::MultiFile;
use crate::utils::SeekError;
use crate::utils::SeekFrom;
use crate::utils::calculate_seek;
use crate::utils::resolve_in_range;
use crate::utils::resolve_seek;
use crate::vec_deq::VecDeque;

verus! {

/// The underlying stream: one source, or several virtually concatenated.
enum Inner {
    /// A single source.
    Single(File),
    /// An ordered list of sources presented as one stream.
    Multi(MultiFile),
}

impl Inner {
    /// Well-formedness of the wrapped stream.
    spec fn wf(self) -> bool {
        match self {
            Inner::Single(f) => f.wf(),
            Inner::Multi(m) => m.wf(),
        }
    }

    /// The bytes of the wrapped stream.
    spec fn stream(self) -> Seq<u8> {
        match self {
            Inner::Single(f) => f@,
            Inner::Multi(m) => m@,
        }
    }

    /// The physical cursor of the wrapped stream.
    spec fn pos(self) -> int {
        match self {
            Inner::Single(f) => f.cursor(),
            Inner::Multi(m) => m.position(),
        }
    }

    /// Repositions the physical cursor at absolute offset `at`.
    fn seek_abs(&mut self, at: usize)
        requires
            old(self).wf(),
            at <= old(self).stream().len(),
        ensures
            final(self).wf(),
            final(self).stream() == old(self).stream(),
            final(self).pos() == at,
    {
        match self {
            Inner::Single(f) => {
                proof {
                    f.lemma_wf_bounds();
                }
                let r = f.seek(SeekFrom::Start(at as u64));
                proof {
                    if r is Err {
                        assert(false);
                    }
                }
            },
            Inner::Multi(m) => {
                proof {
                    m.lemma_wf_bounds();
                }
                let r = m.seek(SeekFrom::Start(at as u64));
                proof {
                    if r is Err {
                        assert(false);
                    }
                }
            },
        }
    }

    /// Reads exactly the `k` bytes at `[at, at + k)` of the stream:
    /// repositions the physical cursor and drains it into a fresh buffer.
    fn fetch_at(&mut self, at: usize, k: usize) -> (r: Vec<u8>)
        requires
            old(self).wf(),
            at + k <= old(self).stream().len(),
        ensures
            final(self).wf(),
            final(self).stream() == old(self).stream(),
            r@ == old(self).stream().subrange(at as int, at + k),
            r@.len() == k,
    {
        self.seek_abs(at);
        let mut tmp: Vec<u8> = Vec::new();
        tmp.resize(k, 0u8);
        let n = match self {
            Inner::Single(f) => f.read(&mut tmp),
            Inner::Multi(m) => m.read(&mut tmp),
        };
        proof {
            assert(n == k);
            assert(tmp@ =~= old(self).stream().subrange(at as int, at + k));
        }
        tmp
    }
}

/// A buffered, seekable reader over one source or a virtual concatenation,
/// caching a sliding window of the stream so that sequential and
/// near-sequential access pays for each byte's I/O only once.
pub struct ExactReader {
    /// The wrapped stream.
    file: Inner,
    /// The stream offset of the first cached byte.
    window_start: usize,
    /// The size of the stream, fixed at construction.
    size: usize,
    /// The cache: the bytes `[window_start, window_start + buffer.len())` of
    /// the stream.
    buffer: VecDeque,
    /// The read cursor's offset within the window.
    buffer_offset: usize,
    /// A pending seek target recorded by `seek` and reconciled by the next
    /// `reserve`; `None` while the cursor is window-relative.
    seeked: Option<usize>,
}

impl ExactReader {
    /// The bytes of the underlying stream.
    pub closed spec fn stream(self) -> Seq<u8> {
        self.file.stream()
    }

    /// The total size of the stream.
    pub closed spec fn size_spec(self) -> int {
        self.size as int
    }

    /// The stream offset of the first cached byte.
    pub closed spec fn window_start_spec(self) -> int {
        self.window_start as int
    }

    /// The cached bytes.
    pub closed spec fn cached(self) -> Seq<u8> {
        self.buffer@
    }

    /// The read cursor's offset within the window.
    pub closed spec fn offset_spec(self) -> int {
        self.buffer_offset as int
    }

    /// The pending seek target, if a seek outside the window has not been
    /// reconciled yet.
    pub closed spec fn pending(self) -> Option<usize> {
        self.seeked
    }

    /// The logical read position: the pending seek target if one is
    /// recorded, else the window start plus the cursor offset.
    pub open spec fn position(self) -> int {
        match self.pending() {
            Some(t) => t as int,
            None => self.window_start_spec() + self.offset_spec(),
        }
    }

    /// Whether stream offset `t` lies within the cached window (its end
    /// inclusive: the cursor may stand just past the last cached byte).
    pub open spec fn in_window(self, t: int) -> bool {
        self.window_start_spec() <= t <= self.window_start_spec() + self.cached().len()
    }

    /// Whether a pending target `t` with a request of `n` bytes extends the
    /// window at its front: the target lies before the window, and the
    /// requested range `[t, t + n]` ends inside it, so fetching exactly the
    /// gap `[t, window start)` suffices.
    pub open spec fn front_extends(self, t: int, n: int) -> bool {
        &&& t < self.window_start_spec()
        &&& self.window_start_spec() <= t + n
        &&& t + n <= self.window_start_spec() + self.cached().len()
    }

    /// Well-formedness: the parts are well-formed, the recorded size is the
    /// stream length, the window lies within the stream, the cache holds
    /// exactly the window's bytes, and the cursor stays inside the window.
    pub closed spec fn wf(self) -> bool {
        &&& self.file.wf()
        &&& self.buffer.wf()
        &&& self.size == self.file.stream().len()
        &&& self.size <= i64::MAX
        &&& self.window_start + self.buffer@.len() <= self.size
        &&& self.buffer_offset <= self.buffer@.len()
        &&& self.buffer@ == self.file.stream().subrange(
            self.window_start as int,
            self.window_start + self.buffer@.len(),
        )
        &&& match self.seeked {
            Some(t) => t <= i64::MAX,
            None => true,
        }
    }

    /// Whether the underlying source state (bytes and physical cursor) of
    /// `self` and `other` is identical — in particular, no I/O separates the
    /// two states.
    pub closed spec fn same_source(self, other: Self) -> bool {
        self.file == other.file
    }

    /// The bounds and the cache coherence every well-formed reader obeys:
    /// they let a caller discharge the seek preconditions and relate the
    /// cursor, the window and the stream.
    pub proof fn lemma_wf_bounds(self)
        requires
            self.wf(),
        ensures
            0 <= self.size_spec() <= i64::MAX,
            self.size_spec() == self.stream().len(),
            0 <= self.position() <= i64::MAX,
            self.offset_spec() <= self.cached().len(),
            0 <= self.window_start_spec(),
            self.window_start_spec() + self.cached().len() <= self.size_spec(),
            self.cached() == self.stream().subrange(
                self.window_start_spec(),
                self.window_start_spec() + self.cached().len(),
            ),
            self.pending() is None ==> self.position() == self.window_start_spec()
                + self.offset_spec(),
            self.pending() is None ==> self.position() <= self.size_spec(),
    {
    }

    /// Wraps a virtual concatenation of sources.
    pub fn new_multi(file: MultiFile) -> (r: ExactReader)
        requires
            file.wf(),
        ensures
            r.wf(),
            r.stream() == file@,
            r.size_spec() == file@.len(),
            r.position() == 0,
            r.cached() == Seq::<u8>::empty(),
            r.pending() is None,
            r.window_start_spec() == 0,
            r.offset_spec() == 0,
    {
        proof {
            file.lemma_wf_bounds();
        }
        let size = file.size();
        let r = ExactReader {
            file: Inner::Multi(file),
            size,
            buffer: VecDeque::new(),
            window_start: 0,
            buffer_offset: 0,
            seeked: None,
        };
        proof {
            assert(r.buffer@ =~= r.stream().subrange(0, 0));
        }
        r
    }

    /// Wraps a single source.
    pub fn new_single(file: File) -> (r: ExactReader)
        requires
            file.wf(),
        ensures
            r.wf(),
            r.stream() == file@,
            r.size_spec() == file@.len(),
            r.position() == 0,
            r.cached() == Seq::<u8>::empty(),
            r.pending() is None,
            r.window_start_spec() == 0,
            r.offset_spec() == 0,
    {
        let size = file.size();
        let r = ExactReader {
            file: Inner::Single(file),
            size,
            buffer: VecDeque::new(),
            window_start: 0,
            buffer_offset: 0,
            seeked: None,
        };
        proof {
            assert(r.buffer@ =~= r.stream().subrange(0, 0));
        }
        r
    }

    /// The total size of the stream in bytes.
    pub fn size(&self) -> (r: usize)
        requires
            self.wf(),
        ensures
            r == self.size_spec(),
            r == self.stream().len(),
    {
        self.size
    }

    /// The logical read position as a plain offset.
    pub fn current_position(&self) -> (r: usize)
        requires
            self.wf(),
        ensures
            r == self.position(),
    {
        match self.seeked {
            Some(t) => t,
            None => self.window_start + self.buffer_offset,
        }
    }

    /// The reservation policy, run by every read before it copies bytes out:
    /// reconciles the cache with the cursor so that the next read of
    /// `reserve_size` bytes can be served from the cache. A pending seek
    /// target inside the window only moves the cursor; one whose requested
    /// range ends inside the window fetches exactly the gap before the
    /// window and prepends it; a disjoint one discards the cache and reloads
    /// it at the target; one beyond the end of the stream stays pending (a
    /// read there delivers nothing). Bytes already cached are never fetched
    /// again: at most the missing suffix is fetched and appended.
    pub fn reserve(&mut self, reserve_size: usize)
        requires
            old(self).wf(),
        ensures
            final(self).wf(),
            final(self).stream() == old(self).stream(),
            final(self).size_spec() == old(self).size_spec(),
            final(self).position() == old(self).position(),
            old(self).position() <= old(self).size_spec() ==> {
                &&& final(self).pending() is None
                &&& final(self).window_start_spec() + final(self).offset_spec() == old(
                    self,
                ).position()
                &&& final(self).cached().len() - final(self).offset_spec() >= vstd::math::min(
                    reserve_size as int,
                    old(self).size_spec() - old(self).position(),
                )
            },
            old(self).position() > old(self).size_spec() ==> *final(self) == *old(self),
            (old(self).pending() is None && old(self).offset_spec() + reserve_size <= old(
                self,
            ).cached().len()) ==> *final(self) == *old(self),
            (match old(self).pending() {
                Some(t) => old(self).in_window(t as int) && t - old(self).window_start_spec()
                    + reserve_size <= old(self).cached().len(),
                None => false,
            }) ==> {
                &&& final(self).same_source(*old(self))
                &&& final(self).cached() == old(self).cached()
                &&& final(self).window_start_spec() == old(self).window_start_spec()
            },
            match old(self).pending() {
                Some(t) => {
                    &&& old(self).in_window(t as int) ==> final(self).window_start_spec()
                        == old(self).window_start_spec()
                        && final(self).cached().subrange(0, old(self).cached().len() as int)
                        == old(self).cached()
                    &&& old(self).front_extends(t as int, reserve_size as int)
                        ==> final(self).window_start_spec() == t
                        && final(self).cached() == old(self).stream().subrange(
                        t as int,
                        old(self).window_start_spec() + old(self).cached().len(),
                    )
                    &&& (!old(self).in_window(t as int) && !old(self).front_extends(
                        t as int,
                        reserve_size as int,
                    ) && t <= old(self).size_spec()) ==> final(self).window_start_spec() == t
                        && final(self).cached().len() == vstd::math::min(
                        reserve_size as int,
                        old(self).size_spec() - t,
                    )
                },
                None => final(self).window_start_spec() == old(self).window_start_spec()
                    && final(self).cached().subrange(0, old(self).cached().len() as int)
                    == old(self).cached(),
            },
    {
        let n = reserve_size;
        match self.seeked {
            Some(t) => {
                if t >= self.window_start && t <= self.window_start + self.buffer.len() {
                    // The window already covers the target: only the cursor
                    // moves; the contents stay.
                    self.buffer_offset = t - self.window_start;
                    self.seeked = None;
                } else if t < self.window_start && self.window_start - t <= n && n
                    - (self.window_start - t) <= self.buffer.len() {
                    // The requested range ends inside the window: fetch
                    // exactly the gap and keep the already-cached suffix.
                    let gap = self.window_start - t;
                    let tmp = self.file.fetch_at(t, gap);
                    self.buffer.extend_front(tmp.as_slice());
                    self.window_start = t;
                    self.buffer_offset = 0;
                    self.seeked = None;
                    proof {
                        assert(self.buffer@ =~= self.stream().subrange(
                            self.window_start as int,
                            self.window_start + self.buffer@.len(),
                        ));
                    }
                    return ;
                } else {
                    if t > self.size {
                        // Beyond the end of the stream: nothing can be
                        // cached; reads at this position deliver nothing.
                        return ;
                    }
                    // No overlap at all: discard the cache and reload it at
                    // the target.
                    let avail = self.size - t;
                    let k = if n < avail {
                        n
                    } else {
                        avail
                    };
                    self.buffer.clear();
                    if k > 0 {
                        let tmp = self.file.fetch_at(t, k);
                        self.buffer.extend_back(tmp.as_slice());
                    }
                    self.window_start = t;
                    self.buffer_offset = 0;
                    self.seeked = None;
                    proof {
                        assert(self.buffer@ =~= self.stream().subrange(
                            self.window_start as int,
                            self.window_start + self.buffer@.len(),
                        ));
                    }
                    return ;
                }
            },
            None => {
            },
        }
        // Sequential continuation: a cache hit needs nothing; otherwise
        // fetch only the missing suffix and extend the window's end.
        if self.buffer.len() - self.buffer_offset >= n {
            return ;
        }
        let fetch_pos = self.window_start + self.buffer.len();
        let avail = self.size - fetch_pos;
        let missing = n - (self.buffer.len() - self.buffer_offset);
        let k = if missing < avail {
            missing
        } else {
            avail
        };
        if k > 0 {
            let tmp = self.file.fetch_at(fetch_pos, k);
            self.buffer.extend_back(tmp.as_slice());
            proof {
                assert(self.buffer@ =~= self.stream().subrange(
                    self.window_start as int,
                    self.window_start + self.buffer@.len(),
                ));
            }
        }
    }

    /// Resolves a seek request against the stream's size and the logical
    /// position. A target inside the cached window only moves the cursor —
    /// no I/O and no pending seek remain. Any other target is recorded as
    /// pending, the physical cursor is delegated there (when the stream can
    /// hold it), and the cache is left as it is for the next read to
    /// reconcile. Fails, changing nothing, when the resolved offset would be
    /// negative.
    pub fn seek(&mut self, pos: SeekFrom) -> (r: Result<u64, SeekError>)
        requires
            old(self).wf(),
            resolve_in_range(old(self).size_spec(), old(self).position(), pos),
            match resolve_seek(old(self).size_spec(), old(self).position(), pos) {
                Some(t) => t <= usize::MAX,
                None => true,
            },
        ensures
            final(self).wf(),
            final(self).stream() == old(self).stream(),
            final(self).size_spec() == old(self).size_spec(),
            match r {
                Ok(v) => {
                    &&& resolve_seek(old(self).size_spec(), old(self).position(), pos) == Some(
                        v as int,
                    )
                    &&& final(self).position() == v
                    &&& final(self).cached() == old(self).cached()
                    &&& final(self).window_start_spec() == old(self).window_start_spec()
                    &&& old(self).in_window(v as int) ==> final(self).same_source(*old(self))
                        && final(self).pending() is None
                        && final(self).offset_spec() == v - old(self).window_start_spec()
                    &&& !old(self).in_window(v as int) ==> final(self).pending() == Some(
                        v as usize,
                    ) && final(self).offset_spec() == old(self).offset_spec()
                },
                Err(e) => resolve_seek(old(self).size_spec(), old(self).position(), pos) is None
                    && e == SeekError::NegativePosition && *final(self) == *old(self),
            },
    {
        let cur = self.current_position();
        let v64: u64 = match calculate_seek(self.size, cur, pos) {
            Ok(v) => v,
            Err(e) => {
                return Err(e);
            },
        };
        let target: usize = v64 as usize;
        if target >= self.window_start && target <= self.window_start + self.buffer.len() {
            // Inside the window: only the internal cursor moves; no I/O.
            self.buffer_offset = target - self.window_start;
            self.seeked = None;
            return Ok(v64);
        }
        // Outside the window: delegate the physical seek (when the stream
        // can hold the target) and leave the rest to the next reservation.
        if target <= self.size {
            self.file.seek_abs(target);
        }
        self.seeked = Some(target);
        Ok(v64)
    }

    /// Fills `buf` from the logical position: reconciles the cache via the
    /// reservation policy, then copies out of the cache's two-slice view.
    /// Returns how many bytes were written — fewer than `buf.len()` only at
    /// the end of the stream — and leaves the rest of `buf` untouched.
    #[verifier::rlimit(50)]
    pub fn read(&mut self, buf: &mut Vec<u8>) -> (n: usize)
        requires
            old(self).wf(),
        ensures
            final(self).wf(),
            final(self).stream() == old(self).stream(),
            final(self).size_spec() == old(self).size_spec(),
            n == (if old(self).position() <= old(self).size_spec() {
                vstd::math::min(
                    old(buf)@.len() as int,
                    old(self).size_spec() - old(self).position(),
                )
            } else {
                0
            }),
            final(self).position() == old(self).position() + n,
            final(buf)@.len() == old(buf)@.len(),
            old(self).position() <= old(self).size_spec() ==> final(buf)@ == old(
                self,
            ).stream().subrange(old(self).position(), old(self).position() + n) + old(buf)@.skip(
                n as int,
            ),
            old(self).position() > old(self).size_spec() ==> final(buf)@ == old(buf)@,
            (old(self).pending() is None && old(self).offset_spec() + old(buf)@.len() <= old(
                self,
            ).cached().len()) ==> final(self).same_source(*old(self)) && final(self).cached()
                == old(self).cached(),
    {
        let n_req: usize = buf.len();
        self.reserve(n_req);
        match self.seeked {
            Some(_) => {
                // A pending target beyond the end of the stream: nothing to
                // deliver, and the position stays put.
                return 0;
            },
            None => {
            },
        }
        let avail = self.buffer.len() - self.buffer_offset;
        let k = if n_req < avail {
            n_req
        } else {
            avail
        };
        let ghost mid = *self;
        let (head_s, tail_s) = self.buffer.as_slices();
        let head_len = head_s.len();
        let adjusted_head_len = if self.buffer_offset < head_len {
            head_len - self.buffer_offset
        } else {
            0
        };
        if adjusted_head_len == 0 {
            // The cursor stands in the wrapped tail slice.
            let tail_offset = self.buffer_offset - head_len;
            copy_from_slice_into(buf, 0, tail_s, tail_offset, k);
        } else if adjusted_head_len >= k {
            // The requested range lies entirely in the head slice.
            copy_from_slice_into(buf, 0, head_s, self.buffer_offset, k);
        } else {
            // The range straddles the split point between the two slices.
            copy_from_slice_into(buf, 0, head_s, self.buffer_offset, adjusted_head_len);
            copy_from_slice_into(buf, adjusted_head_len, tail_s, 0, k - adjusted_head_len);
        }
        proof {
            assert(buf@ =~= mid.cached().subrange(
                mid.offset_spec(),
                mid.offset_spec() + k,
            ) + old(buf)@.skip(k as int));
            assert(buf@ =~= old(self).stream().subrange(
                old(self).position(),
                old(self).position() + k,
            ) + old(buf)@.skip(k as int));
        }
        self.buffer_offset = self.buffer_offset + k;
        k
    }

    /// The logical read position, in the shape the seek interface uses.
    pub fn stream_position(&mut self) -> (r: u64)
        requires
            old(self).wf(),
        ensures
            *final(self) == *old(self),
            r == old(self).position(),
    {
        self.current_position() as u64
    }
}

/// Reads with no seek between them concatenate: every read hands back
/// exactly the stream's bytes from the position it started at, and advances
/// the position by that many bytes, so the bytes of two consecutive reads —
/// `[a, m)` then `[m, b)` — joined together are the bytes a single direct
/// read of `[a, b)` would deliver.
pub proof fn lemma_sequential_reads_concatenate(s: Seq<u8>, a: int, m: int, b: int)
    requires
        0 <= a <= m <= b <= s.len(),
    ensures
        s.subrange(a, m) + s.subrange(m, b) == s.subrange(a, b),
{
    assert(s.subrange(a, m) + s.subrange(m, b) =~= s.subrange(a, b));
}

/// Copies `src[src_off .. src_off + count)` into `dst[at .. at + count)`,
/// leaving the rest of `dst` untouched.
fn copy_from_slice_into(dst: &mut Vec<u8>, at: usize, src: &[u8], src_off: usize, count: usize)
    requires
        at + count <= old(dst)@.len(),
        src_off + count <= src@.len(),
    ensures
        final(dst)@.len() == old(dst)@.len(),
        final(dst)@ == old(dst)@.take(at as int) + src@.subrange(src_off as int, src_off + count)
            + old(dst)@.skip(at + count),
{
    let dst_len: usize = dst.len();
    let src_len: usize = src.len();
    let mut i: usize = 0;
    while i < count
        invariant
            dst@.len() == dst_len,
            src@.len() == src_len,
            at + count <= dst@.len(),
            src_off + count <= src@.len(),
            i <= count,
            dst@.len() == old(dst)@.len(),
            forall|j: int|
                0 <= j < dst@.len() ==> dst@[j] == (if at <= j < at + i {
                    src@[src_off + (j - at)]
                } else {
                    old(dst)@[j]
                }),
        decreases count - i,
    {
        let v = *vstd::slice::slice_index_get(src, src_off + i);
        dst.set(at + i, v);
        i = i + 1;
    }
    proof {
        assert(dst@ =~= old(dst)@.take(at as int) + src@.subrange(src_off as int, src_off + count)
            + old(dst)@.skip(at + count));
    }
}

} // verus!
