//! Virtual concatenation: an ordered list of finite byte sources presented as
//! one contiguous, seekable address space.
//!
//! A [`File`] is one source: a run of bytes with a cursor and a display name.
//! A [`MultiFile`] owns an ordered list of them and maps every logical offset
//! of the combined stream to the source holding it, crossing boundaries on
//! reads and repositioning passed-over sources on seeks so that sequential
//! access stays cheap.

use vstd::prelude::*;

use crate::utils::SeekError;
use crate::utils::SeekFrom;
use crate::utils::calculate_seek;
use crate::utils::resolve_in_range;
use crate::utils::resolve_seek;

verus! {

/// One finite byte source: its bytes, a cursor, and a display name.
///
/// The view of a `File` is its byte content; the cursor is where the next
/// read starts, and may stand past the end (reads there return nothing).
pub struct File {
    /// The bytes of the source.
    data: Vec<u8>,
    /// Where the next read starts.
    pos: usize,
    /// The size of the source in bytes; equals `data.len()`.
    size: usize,
    /// The display name of the source.
    filename: String,
}

impl View for File {
    type V = Seq<u8>;

    /// The byte content of the source.
    closed spec fn view(&self) -> Seq<u8> {
        self.data@
    }
}

impl File {
    /// The cursor: the offset at which the next read starts.
    pub closed spec fn cursor(self) -> int {
        self.pos as int
    }

    /// The display name.
    pub closed spec fn name_spec(self) -> Seq<char> {
        self.filename@
    }

    /// Well-formedness: the recorded size is the content length, and both the
    /// size and the cursor stay within `i64::MAX` so that every seek base is
    /// expressible.
    pub closed spec fn wf(self) -> bool {
        &&& self.size == self.data@.len()
        &&& self.size <= i64::MAX
        &&& self.pos <= i64::MAX
    }

    /// Wraps `data` as a source named `filename`, with the cursor at 0.
    pub fn new(data: Vec<u8>, filename: String) -> (r: File)
        requires
            data@.len() <= i64::MAX,
        ensures
            r.wf(),
            r@ == data@,
            r.cursor() == 0,
            r.name_spec() == filename@,
    {
        let size = data.len();
        File { data, pos: 0, size, filename }
    }

    /// The size of the source in bytes.
    pub fn size(&self) -> (r: usize)
        requires
            self.wf(),
        ensures
            r == self@.len(),
            r <= i64::MAX,
    {
        self.size
    }

    /// The display name of the source.
    pub fn filename(&self) -> (r: &String)
        ensures
            r@ == self.name_spec(),
    {
        &self.filename
    }

    /// The cursor as a plain offset.
    pub fn position(&self) -> (r: usize)
        ensures
            r == self.cursor(),
    {
        self.pos
    }

    /// A well-formed source is small enough for every seek base to be
    /// expressible, and its cursor never exceeds that bound either.
    pub proof fn lemma_wf_bounds(self)
        requires
            self.wf(),
        ensures
            self@.len() <= i64::MAX,
            0 <= self.cursor() <= i64::MAX,
    {
    }

    /// How many bytes a read can still deliver: the distance from the cursor
    /// to the end, or 0 when the cursor stands at or past the end.
    pub open spec fn remaining(self) -> int {
        if self.cursor() < self@.len() {
            self@.len() - self.cursor()
        } else {
            0
        }
    }

    /// Reads from the cursor into `buf[at..]`, filling as many bytes as the
    /// source still holds (never more than `buf.len() - at`), advancing the
    /// cursor, and leaving the rest of `buf` untouched.
    pub fn read_into(&mut self, buf: &mut Vec<u8>, at: usize) -> (n: usize)
        requires
            old(self).wf(),
            at <= old(buf)@.len(),
        ensures
            final(self).wf(),
            final(self)@ == old(self)@,
            final(self).name_spec() == old(self).name_spec(),
            n == vstd::math::min(old(buf)@.len() - at, old(self).remaining()),
            final(self).cursor() == old(self).cursor() + n,
            final(buf)@.len() == old(buf)@.len(),
            old(self).cursor() <= old(self)@.len() ==> final(buf)@ == old(buf)@.take(at as int)
                + old(self)@.subrange(old(self).cursor(), old(self).cursor() + n) + old(buf)@.skip(
                at + n,
            ),
            old(self).cursor() > old(self)@.len() ==> final(buf)@ == old(buf)@,
    {
        let want: usize = buf.len() - at;
        let avail: usize = if self.pos < self.size {
            self.size - self.pos
        } else {
            0
        };
        let n: usize = if want < avail {
            want
        } else {
            avail
        };
        let buf_len: usize = buf.len();
        let mut i: usize = 0;
        while i < n
            invariant
                self.wf(),
                *self == *old(self),
                buf@.len() == buf_len,
                at + n <= buf@.len(),
                n == 0 || self.pos + n <= self@.len(),
                i <= n,
                buf@.len() == old(buf)@.len(),
                forall|j: int|
                    0 <= j < buf@.len() ==> buf@[j] == (if at <= j < at + i {
                        self@[self.cursor() + (j - at)]
                    } else {
                        old(buf)@[j]
                    }),
            decreases n - i,
        {
            let v = self.data[self.pos + i];
            buf.set(at + i, v);
            i = i + 1;
        }
        self.pos = self.pos + n;
        proof {
            if old(self).cursor() <= old(self)@.len() {
                assert(final(buf)@ =~= old(buf)@.take(at as int) + old(self)@.subrange(
                    old(self).cursor(),
                    old(self).cursor() + n,
                ) + old(buf)@.skip(at + n));
            } else {
                assert(final(buf)@ =~= old(buf)@);
            }
        }
        n
    }

    /// Reads into `buf` from its start: the read/seek capability contract's
    /// `read(buffer) -> bytes_written`.
    pub fn read(&mut self, buf: &mut Vec<u8>) -> (n: usize)
        requires
            old(self).wf(),
        ensures
            final(self).wf(),
            final(self)@ == old(self)@,
            final(self).name_spec() == old(self).name_spec(),
            n == vstd::math::min(old(buf)@.len() as int, old(self).remaining()),
            final(self).cursor() == old(self).cursor() + n,
            final(buf)@.len() == old(buf)@.len(),
            old(self).cursor() <= old(self)@.len() ==> final(buf)@ == old(self)@.subrange(
                old(self).cursor(),
                old(self).cursor() + n,
            ) + old(buf)@.skip(n as int),
            old(self).cursor() > old(self)@.len() ==> final(buf)@ == old(buf)@,
    {
        let n = self.read_into(buf, 0);
        proof {
            assert(old(buf)@.take(0) =~= Seq::<u8>::empty());
            if old(self).cursor() <= old(self)@.len() {
                assert(final(buf)@ =~= old(self)@.subrange(
                    old(self).cursor(),
                    old(self).cursor() + n,
                ) + old(buf)@.skip(n as int));
            }
        }
        n
    }

    /// Moves the cursor to the end of the source, as happens to every source
    /// a combined seek passes over forward.
    fn seek_to_end(&mut self)
        requires
            old(self).wf(),
        ensures
            final(self).wf(),
            final(self)@ == old(self)@,
            final(self).name_spec() == old(self).name_spec(),
            final(self).cursor() == old(self)@.len(),
    {
        self.pos = self.size;
    }

    /// Moves the cursor to the start of the source, as happens to every
    /// source a combined seek passes over backward.
    fn seek_to_start(&mut self)
        requires
            old(self).wf(),
        ensures
            final(self).wf(),
            final(self)@ == old(self)@,
            final(self).name_spec() == old(self).name_spec(),
            final(self).cursor() == 0,
    {
        self.pos = 0;
    }

    /// Moves the cursor directly to `p`.
    fn set_cursor(&mut self, p: usize)
        requires
            old(self).wf(),
            p <= i64::MAX,
        ensures
            final(self).wf(),
            final(self)@ == old(self)@,
            final(self).name_spec() == old(self).name_spec(),
            final(self).cursor() == p,
    {
        self.pos = p;
    }

    /// Resolves a seek request against this source's size and cursor and
    /// moves the cursor there; the cursor may land past the end. Fails, and
    /// leaves the cursor alone, when the resolved offset would be negative.
    pub fn seek(&mut self, pos: SeekFrom) -> (r: Result<u64, SeekError>)
        requires
            old(self).wf(),
            resolve_in_range(old(self)@.len() as int, old(self).cursor(), pos),
            match resolve_seek(old(self)@.len() as int, old(self).cursor(), pos) {
                Some(t) => t <= usize::MAX,
                None => true,
            },
        ensures
            final(self).wf(),
            final(self)@ == old(self)@,
            final(self).name_spec() == old(self).name_spec(),
            match r {
                Ok(v) => resolve_seek(old(self)@.len() as int, old(self).cursor(), pos) == Some(
                    v as int,
                ) && final(self).cursor() == v,
                Err(e) => resolve_seek(old(self)@.len() as int, old(self).cursor(), pos) is None
                    && e == SeekError::NegativePosition && *final(self) == *old(self),
            },
    {
        match calculate_seek(self.size, self.pos, pos) {
            Ok(v) => {
                self.pos = v as usize;
                Ok(v)
            },
            Err(e) => Err(e),
        }
    }
}

/// The combined length of the first `k` sources.
pub open spec fn prefix_len(files: Seq<File>, k: int) -> int
    decreases k,
{
    if k <= 0 {
        0
    } else {
        prefix_len(files, k - 1) + files[k - 1]@.len()
    }
}

/// The concatenated bytes of the first `k` sources.
pub open spec fn concat_prefix(files: Seq<File>, k: int) -> Seq<u8>
    decreases k,
{
    if k <= 0 {
        Seq::<u8>::empty()
    } else {
        concat_prefix(files, k - 1) + files[k - 1]@
    }
}

/// Prefix lengths are never negative.
pub proof fn lemma_prefix_len_nonneg(files: Seq<File>, k: int)
    ensures
        prefix_len(files, k) >= 0,
    decreases k,
{
    if k > 0 {
        lemma_prefix_len_nonneg(files, k - 1);
    }
}

/// Prefix lengths grow with the prefix.
pub proof fn lemma_prefix_len_monotonic(files: Seq<File>, a: int, b: int)
    requires
        a <= b,
    ensures
        prefix_len(files, a) <= prefix_len(files, b),
    decreases b - a,
{
    if a < b {
        lemma_prefix_len_monotonic(files, a, b - 1);
    }
}

/// The concatenation of the first `k` sources has the combined length of the
/// first `k` sources.
pub proof fn lemma_concat_prefix_len(files: Seq<File>, k: int)
    ensures
        concat_prefix(files, k).len() == prefix_len(files, k),
    decreases k,
{
    if k > 0 {
        lemma_concat_prefix_len(files, k - 1);
        lemma_prefix_len_nonneg(files, k - 1);
    }
}

/// Within the concatenation, the byte at offset `o` of source `idx` stands at
/// the combined offset `prefix_len(idx) + o`.
pub proof fn lemma_concat_prefix_index(files: Seq<File>, k: int, idx: int, o: int)
    requires
        0 <= idx < k,
        0 <= o < files[idx]@.len(),
    ensures
        concat_prefix(files, k)[prefix_len(files, idx) + o] == files[idx]@[o],
    decreases k,
{
    lemma_prefix_len_nonneg(files, idx);
    lemma_concat_prefix_len(files, k - 1);
    if idx == k - 1 {
    } else {
        lemma_concat_prefix_index(files, k - 1, idx, o);
        lemma_prefix_len_monotonic(files, idx + 1, k - 1);
    }
}

/// Combines multiple sources into one unified stream, readable and seekable
/// as if all sources were concatenated.
///
/// The view of a `MultiFile` is the concatenation of its sources' bytes. The
/// physical cursor — the combined offset the next read starts at — is tracked
/// as the source it falls in (`current_file_idx`), the combined offset of
/// that source's start (`cumul_offset`), and the offset within it
/// (`infile_offset`).
pub struct MultiFile {
    /// The ordered sources.
    files: Vec<File>,
    /// The combined offset of the current source's start: the sum of the
    /// sizes of the sources before it.
    cumul_offset: usize,
    /// The offset within the current source.
    infile_offset: usize,
    /// The total size of the combined stream, fixed at construction.
    total_len: usize,
    /// The index of the source holding the cursor.
    current_file_idx: usize,
}

impl View for MultiFile {
    type V = Seq<u8>;

    /// The bytes of the combined stream: the sources' contents concatenated
    /// in order.
    closed spec fn view(&self) -> Seq<u8> {
        concat_prefix(self.files@, self.files@.len() as int)
    }
}

impl MultiFile {
    /// The number of sources.
    pub closed spec fn source_count(self) -> int {
        self.files@.len() as int
    }

    /// The combined offset the next read starts at.
    pub closed spec fn position(self) -> int {
        self.cumul_offset + self.infile_offset
    }

    /// Well-formedness: every source is well-formed; the recorded total is
    /// the sum of the source sizes and stays within `i64::MAX`; the cursor
    /// fields name a source, the combined offset of its start, and a cursor
    /// inside it that agrees with that source's own cursor; and every source
    /// after the current one stands at its start.
    pub closed spec fn wf(self) -> bool {
        &&& forall|i: int| 0 <= i < self.files@.len() ==> (#[trigger] self.files@[i]).wf()
        &&& self.total_len == prefix_len(self.files@, self.files@.len() as int)
        &&& self.total_len <= i64::MAX
        &&& if self.files@.len() == 0 {
            self.current_file_idx == 0 && self.cumul_offset == 0 && self.infile_offset == 0
        } else {
            &&& self.current_file_idx < self.files@.len()
            &&& self.cumul_offset == prefix_len(self.files@, self.current_file_idx as int)
            &&& self.infile_offset == self.files@[self.current_file_idx as int].cursor()
            &&& self.infile_offset <= self.files@[self.current_file_idx as int]@.len()
            &&& forall|j: int|
                self.current_file_idx < j < self.files@.len() ==> (#[trigger] self.files@[j]).cursor()
                    == 0
        }
    }

    /// The view is as long as the recorded total, and the cursor never
    /// stands past the end of the stream.
    pub proof fn lemma_wf_bounds(self)
        requires
            self.wf(),
        ensures
            self@.len() == self.total_spec(),
            self.total_spec() <= i64::MAX,
            0 <= self.position() <= self@.len(),
    {
        lemma_concat_prefix_len(self.files@, self.files@.len() as int);
        if self.files@.len() > 0 {
            let cur = self.current_file_idx as int;
            lemma_prefix_len_nonneg(self.files@, cur);
            lemma_prefix_len_monotonic(self.files@, cur + 1, self.files@.len() as int);
        }
    }

    /// The total size of the combined stream.
    pub closed spec fn total_spec(self) -> int {
        self.total_len as int
    }

    /// Creates a `MultiFile` over the given sources, with the cursor at the
    /// start of the combined stream.
    pub fn new(files: Vec<File>) -> (r: MultiFile)
        requires
            forall|i: int|
                0 <= i < files@.len() ==> (#[trigger] files@[i]).wf() && files@[i].cursor() == 0,
            prefix_len(files@, files@.len() as int) <= i64::MAX,
            prefix_len(files@, files@.len() as int) <= usize::MAX,
        ensures
            r.wf(),
            r@ == concat_prefix(files@, files@.len() as int),
            r.position() == 0,
            r.source_count() == files@.len(),
    {
        let count: usize = files.len();
        let mut total_len: usize = 0;
        let mut i: usize = 0;
        while i < count
            invariant
                count == files@.len(),
                forall|k: int|
                    0 <= k < files@.len() ==> (#[trigger] files@[k]).wf() && files@[k].cursor()
                        == 0,
                prefix_len(files@, files@.len() as int) <= i64::MAX,
                prefix_len(files@, files@.len() as int) <= usize::MAX,
                i <= count,
                total_len == prefix_len(files@, i as int),
            decreases count - i,
        {
            proof {
                lemma_prefix_len_nonneg(files@, i as int);
                lemma_prefix_len_monotonic(files@, i + 1, files@.len() as int);
            }
            let s = files[i].size();
            total_len = total_len + s;
            i = i + 1;
        }
        MultiFile { current_file_idx: 0, infile_offset: 0, cumul_offset: 0, files, total_len }
    }

    /// The total size of the combined stream in bytes.
    pub fn size(&self) -> (r: usize)
        requires
            self.wf(),
        ensures
            r == self@.len(),
            r <= i64::MAX,
    {
        proof {
            lemma_concat_prefix_len(self.files@, self.files@.len() as int);
        }
        self.total_len
    }

    /// The combined offset of the next read: the start of the current source
    /// plus the offset within it.
    #[inline]
    fn physical_offset(&self) -> (r: usize)
        requires
            self.wf(),
        ensures
            r == self.position(),
            r <= self@.len(),
    {
        proof {
            self.lemma_wf_bounds();
        }
        self.cumul_offset + self.infile_offset
    }

    /// The combined offset the next read starts at.
    pub fn stream_position(&mut self) -> (r: u64)
        requires
            old(self).wf(),
        ensures
            *final(self) == *old(self),
            r == old(self).position(),
    {
        self.physical_offset() as u64
    }

    /// The index of the source holding combined offset `needle`: the source
    /// whose span `[prefix_len(idx), prefix_len(idx + 1)]` contains it.
    /// `None` exactly when `needle` lies beyond the combined stream. Scans
    /// backward from the current source when the target is behind it,
    /// forward otherwise, so sequential access stays O(1) amortized.
    fn needle_to_file(&self, needle: usize) -> (r: Option<usize>)
        requires
            self.wf(),
            self.source_count() > 0,
        ensures
            match r {
                None => needle > self@.len(),
                Some(idx) => needle <= self@.len() && 0 <= idx < self.source_count() && prefix_len(
                    self.files@,
                    idx as int,
                ) <= needle && needle <= prefix_len(self.files@, idx as int + 1),
            },
    {
        proof {
            lemma_concat_prefix_len(self.files@, self.files@.len() as int);
        }
        if needle > self.total_len {
            return None;
        }
        let count: usize = self.files.len();
        if self.cumul_offset == needle {
            proof {
                lemma_prefix_len_nonneg(self.files@, self.current_file_idx as int);
            }
            return Some(self.current_file_idx);
        }
        if self.cumul_offset > needle {
            let mut res: usize = 0;
            let mut idx: usize = 0;
            while idx < self.current_file_idx
                invariant
                    self.wf(),
                    self.source_count() > 0,
                    self.current_file_idx < count,
                    count == self.files@.len(),
                    needle < self.cumul_offset,
                    self.cumul_offset == prefix_len(self.files@, self.current_file_idx as int),
                    idx <= self.current_file_idx,
                    res == prefix_len(self.files@, idx as int),
                    res <= needle,
                decreases self.current_file_idx - idx,
            {
                proof {
                    lemma_prefix_len_monotonic(self.files@, idx as int + 1, count as int);
                    lemma_concat_prefix_len(self.files@, count as int);
                }
                let s = self.files[idx].size();
                if res + s >= needle {
                    return Some(idx);
                }
                res = res + s;
                idx = idx + 1;
            }
            proof {
                assert(false);
            }
            return None;
        }
        let mut res: usize = self.cumul_offset;
        let mut idx: usize = self.current_file_idx;
        while idx < count
            invariant
                self.wf(),
                self.source_count() > 0,
                count == self.files@.len(),
                needle <= self.total_len,
                self.current_file_idx <= idx,
                idx <= count,
                res == prefix_len(self.files@, idx as int),
                res <= needle,
            decreases count - idx,
        {
            proof {
                lemma_prefix_len_monotonic(self.files@, idx as int + 1, count as int);
                lemma_concat_prefix_len(self.files@, count as int);
            }
            let s = self.files[idx].size();
            if res + s > needle {
                return Some(idx);
            }
            res = res + s;
            idx = idx + 1;
        }
        proof {
            lemma_concat_prefix_len(self.files@, count as int);
            lemma_prefix_len_monotonic(self.files@, count as int - 1, count as int);
            lemma_prefix_len_nonneg(self.files@, count as int - 1);
        }
        Some(count - 1)
    }

    /// Fills `buf` from the cursor, reading from the current source and
    /// advancing to the following ones on short reads, until `buf` is full
    /// or every source is exhausted. Returns how many bytes were written;
    /// the rest of `buf` keeps whatever the caller put there (no synthetic
    /// padding).
    pub fn read(&mut self, buf: &mut Vec<u8>) -> (n: usize)
        requires
            old(self).wf(),
        ensures
            final(self).wf(),
            final(self)@ == old(self)@,
            n == vstd::math::min(old(buf)@.len() as int, old(self)@.len() - old(self).position()),
            final(self).position() == old(self).position() + n,
            final(buf)@.len() == old(buf)@.len(),
            final(buf)@ == old(self)@.subrange(old(self).position(), old(self).position() + n)
                + old(buf)@.skip(n as int),
    {
        proof {
            old(self).lemma_wf_bounds();
        }
        let count: usize = self.files.len();
        if count == 0 {
            proof {
                assert(final(buf)@ =~= old(self)@.subrange(0, 0) + old(buf)@.skip(0));
            }
            return 0;
        }
        let expected: usize = buf.len();
        let ghost files0 = self.files@;
        let ghost buf0 = buf@;
        let ghost stream = old(self)@;
        let ghost start_pos = self.position();
        let ghost total0 = self.total_len;
        let mut taken: usize = 0;
        let mut idx: usize = self.current_file_idx;
        let mut cumul: usize = self.cumul_offset;
        proof {
            assert(buf@ =~= stream.subrange(start_pos, start_pos + 0) + buf0.skip(0));
        }
        loop
            invariant_except_break
                count == files0.len(),
                count == self.files@.len(),
                count > 0,
                expected == buf@.len(),
                stream == concat_prefix(files0, count as int),
                stream.len() == prefix_len(files0, count as int),
                stream.len() == total0,
                self.total_len == total0,
                total0 <= i64::MAX,
                forall|k: int| 0 <= k < count ==> (#[trigger] files0[k]).wf(),
                forall|k: int| 0 <= k < count ==> (#[trigger] self.files@[k]).wf(),
                forall|k: int| 0 <= k < count ==> (#[trigger] self.files@[k])@ == files0[k]@,
                idx < count,
                cumul == prefix_len(self.files@, idx as int),
                cumul + self.files@[idx as int].cursor() == start_pos + taken,
                self.files@[idx as int].cursor() <= self.files@[idx as int]@.len(),
                forall|j: int| idx < j < count ==> (#[trigger] self.files@[j]).cursor() == 0,
                taken <= expected,
                0 <= start_pos,
                start_pos + taken <= stream.len(),
                buf@.len() == buf0.len(),
                buf@ == stream.subrange(start_pos, start_pos + taken) + buf0.skip(taken as int),
            ensures
                count == self.files@.len(),
                stream.len() == total0,
                self.total_len == total0,
                total0 <= i64::MAX,
                forall|k: int| 0 <= k < count ==> (#[trigger] self.files@[k]).wf(),
                forall|k: int| 0 <= k < count ==> (#[trigger] self.files@[k])@ == files0[k]@,
                idx < count,
                cumul == prefix_len(self.files@, idx as int),
                cumul + self.files@[idx as int].cursor() == start_pos + taken,
                self.files@[idx as int].cursor() <= self.files@[idx as int]@.len(),
                forall|j: int| idx < j < count ==> (#[trigger] self.files@[j]).cursor() == 0,
                taken <= expected,
                start_pos + taken <= stream.len(),
                taken == expected || start_pos + taken == stream.len(),
                buf@.len() == buf0.len(),
                buf@ == stream.subrange(start_pos, start_pos + taken) + buf0.skip(taken as int),
            decreases count - idx,
        {
            let ghost files_pre = self.files@;
            let ghost buf_pre = buf@;
            let ghost taken_pre = taken as int;
            let ghost c0 = files_pre[idx as int].cursor();
            let f = vstd::std_specs::vec::vec_index_mut(&mut self.files, idx);
            let n_i = f.read_into(buf, taken);
            taken = taken + n_i;
            proof {
                assert(forall|k: int|
                    0 <= k < count ==> (#[trigger] self.files@[k])@ == files_pre[k]@);
                lemma_prefix_congruence(files0, files_pre, idx as int);
                lemma_prefix_congruence(files_pre, self.files@, count as int);
                lemma_prefix_congruence(files_pre, self.files@, idx as int);
                lemma_prefix_len_nonneg(files_pre, idx as int);
                lemma_prefix_len_monotonic(files0, idx as int + 1, count as int);
                lemma_prefix_congruence(files0, files_pre, idx as int + 1);
                assert forall|o: int| c0 <= o < c0 + n_i implies files_pre[idx as int]@[o]
                    == stream[prefix_len(files_pre, idx as int) + o] by {
                    lemma_concat_prefix_index(files0, count as int, idx as int, o);
                }
                assert forall|j: int| 0 <= j < taken_pre implies buf_pre[j] == stream[start_pos
                    + j] by {
                    assert(buf_pre[j] == stream.subrange(start_pos, start_pos + taken_pre)[j]);
                }
                assert forall|j: int|
                    taken_pre <= j < buf_pre.len() implies buf_pre[j] == buf0[j] by {
                    assert(buf_pre[j] == buf0.skip(taken_pre)[j - taken_pre]);
                }
                assert(buf@ =~= stream.subrange(start_pos, start_pos + taken) + buf0.skip(
                    taken as int,
                ));
            }
            if taken == expected || idx + 1 == count {
                proof {
                    if taken != expected {
                        assert(n_i < expected - taken_pre);
                        assert(n_i == files_pre[idx as int].remaining());
                        assert(self.files@[idx as int].cursor() == self.files@[idx as int]@.len());
                        lemma_concat_prefix_len(self.files@, count as int);
                        lemma_prefix_congruence(files0, self.files@, count as int);
                        assert(start_pos + taken == stream.len());
                    }
                }
                break ;
            }
            proof {
                if self.files@[idx as int].cursor() < self.files@[idx as int]@.len() {
                    assert(n_i == expected - taken_pre);
                    assert(false);
                }
                lemma_prefix_len_monotonic(self.files@, idx as int + 1, count as int);
                lemma_concat_prefix_len(self.files@, count as int);
                lemma_prefix_congruence(files0, self.files@, count as int);
            }
            let s = self.files[idx].size();
            cumul = cumul + s;
            idx = idx + 1;
        }
        let p = self.files[idx].position();
        self.current_file_idx = idx;
        self.cumul_offset = cumul;
        self.infile_offset = p;
        proof {
            lemma_prefix_congruence(old(self).files@, self.files@, count as int);
            lemma_concat_prefix_len(self.files@, count as int);
            lemma_prefix_len_nonneg(self.files@, idx as int);
            lemma_prefix_len_monotonic(self.files@, idx as int + 1, count as int);
        }
        taken
    }

    /// Resolves a seek request against the combined stream and moves the
    /// cursor there. Sources passed over forward are seeked to their end and
    /// sources passed over backward to their start, so that subsequent
    /// sequential reads stay consistent with last-touched semantics. Fails,
    /// changing nothing, when the resolved offset would be negative.
    pub fn seek(&mut self, pos: SeekFrom) -> (r: Result<u64, SeekError>)
        requires
            old(self).wf(),
            resolve_in_range(old(self)@.len() as int, old(self).position(), pos),
            match resolve_seek(old(self)@.len() as int, old(self).position(), pos) {
                Some(t) => t <= old(self)@.len(),
                None => true,
            },
        ensures
            final(self).wf(),
            final(self)@ == old(self)@,
            match r {
                Ok(v) => resolve_seek(old(self)@.len() as int, old(self).position(), pos) == Some(
                    v as int,
                ) && final(self).position() == v,
                Err(e) => resolve_seek(old(self)@.len() as int, old(self).position(), pos) is None
                    && e == SeekError::NegativePosition && *final(self) == *old(self),
            },
    {
        proof {
            old(self).lemma_wf_bounds();
        }
        let current = self.physical_offset();
        let calculated64: u64 = match calculate_seek(self.total_len, current, pos) {
            Ok(v) => v,
            Err(e) => {
                return Err(e);
            },
        };
        let calculated: usize = calculated64 as usize;
        let count: usize = self.files.len();
        if count == 0 {
            return Ok(calculated64);
        }
        let idx: usize = match self.needle_to_file(calculated) {
            Some(i) => i,
            None => {
                proof {
                    assert(false);
                }
                return Err(SeekError::NegativePosition);
            },
        };
        let ghost files0 = self.files@;
        let ghost total0 = self.total_len;
        let mut new_cum: usize = 0;
        let mut j: usize = 0;
        while j < idx
            invariant
                self.wf(),
                *self == *old(self),
                idx < count,
                count == self.files@.len(),
                j <= idx,
                new_cum == prefix_len(self.files@, j as int),
                prefix_len(self.files@, count as int) <= usize::MAX,
            decreases idx - j,
        {
            proof {
                lemma_prefix_len_monotonic(self.files@, j as int + 1, count as int);
            }
            let s = self.files[j].size();
            new_cum = new_cum + s;
            j = j + 1;
        }
        let seek_to: usize = calculated - new_cum;
        proof {
            lemma_prefix_len_monotonic(files0, idx as int + 1, count as int);
            lemma_concat_prefix_len(files0, count as int);
        }
        if idx > self.current_file_idx {
            let mut k: usize = 0;
            while k < idx
                invariant
                    count == self.files@.len(),
                    idx < count,
                    self.total_len == total0,
                    forall|m: int| 0 <= m < count ==> (#[trigger] self.files@[m]).wf(),
                    forall|m: int| 0 <= m < count ==> (#[trigger] self.files@[m])@ == files0[m]@,
                    forall|m: int| k <= m < count ==> self.files@[m] == files0[m],
                    k <= idx,
                decreases idx - k,
            {
                let f = vstd::std_specs::vec::vec_index_mut(&mut self.files, k);
                f.seek_to_end();
                k = k + 1;
            }
        } else if idx < self.current_file_idx {
            let stop: usize = self.current_file_idx;
            let mut k: usize = idx + 1;
            while k <= stop
                invariant
                    count == self.files@.len(),
                    idx < count,
                    stop < count,
                    self.total_len == total0,
                    forall|m: int| 0 <= m < count ==> (#[trigger] self.files@[m]).wf(),
                    forall|m: int| 0 <= m < count ==> (#[trigger] self.files@[m])@ == files0[m]@,
                    forall|m: int| 0 <= m < idx + 1 ==> self.files@[m] == files0[m],
                    forall|m: int| k <= m < count ==> self.files@[m] == files0[m],
                    forall|m: int| idx + 1 <= m < k ==> (#[trigger] self.files@[m]).cursor() == 0,
                    idx + 1 <= k <= stop + 1,
                decreases stop + 1 - k,
            {
                let f = vstd::std_specs::vec::vec_index_mut(&mut self.files, k);
                f.seek_to_start();
                k = k + 1;
            }
        }
        proof {
            lemma_prefix_congruence(files0, self.files@, idx as int);
            lemma_prefix_congruence(files0, self.files@, idx as int + 1);
        }
        let f = vstd::std_specs::vec::vec_index_mut(&mut self.files, idx);
        f.set_cursor(seek_to);
        self.current_file_idx = idx;
        self.cumul_offset = new_cum;
        self.infile_offset = seek_to;
        proof {
            lemma_prefix_congruence(files0, self.files@, count as int);
            lemma_prefix_congruence(files0, self.files@, idx as int);
            lemma_prefix_congruence(files0, self.files@, idx as int + 1);
            lemma_prefix_congruence(old(self).files@, self.files@, count as int);
        }
        Ok(calculated64)
    }
}

/// Prefix lengths and concatenations depend only on the sources' contents,
/// not on their cursors or names.
pub proof fn lemma_prefix_congruence(a: Seq<File>, b: Seq<File>, k: int)
    requires
        a.len() == b.len(),
        forall|i: int| 0 <= i < a.len() ==> a[i]@ == b[i]@,
        k <= a.len(),
    ensures
        prefix_len(a, k) == prefix_len(b, k),
        concat_prefix(a, k) == concat_prefix(b, k),
    decreases k,
{
    if k > 0 {
        lemma_prefix_congruence(a, b, k - 1);
    }
}

} // verus!
