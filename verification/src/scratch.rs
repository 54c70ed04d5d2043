//! Bounded carry-over storage for a decoded word that could not be written
//! directly to the caller's output.  It holds at most one pending word at a
//! time, in `bytes[read_mark .. write_mark]`, and is drained before any new
//! decoding resumes.

use vstd::prelude::*;

use crate::Code;
use crate::MAX_ENTRIES;
use crate::table::Table;
use crate::table::is_word_code;
use crate::table::spec_literal_count;

verus! {

/// The scratch buffer: `bytes` is allocated once, sized for the longest
/// possible dictionary word, and never reallocated.
pub struct ScratchBuffer {
    bytes: Vec<u8>,
    read_mark: usize,
    write_mark: usize,
}

impl ScratchBuffer {
    /// The stored bytes, as a mathematical sequence.
    pub closed spec fn data(self) -> Seq<u8> {
        self.bytes@
    }

    pub closed spec fn read_mark(self) -> int {
        self.read_mark as int
    }

    pub closed spec fn write_mark(self) -> int {
        self.write_mark as int
    }

    /// The undelivered part of the stored word.
    pub open spec fn pending(self) -> Seq<u8> {
        self.data().subrange(self.read_mark(), self.write_mark())
    }

    /// The whole stored word, delivered or not.
    pub open spec fn stored(self) -> Seq<u8> {
        self.data().take(self.write_mark())
    }

    pub open spec fn wf(self) -> bool {
        &&& 0 <= self.read_mark() <= self.write_mark() <= self.data().len()
        &&& self.data().len() == MAX_ENTRIES as int
    }

    /// A scratch buffer sized for the longest dictionary word.
    pub fn new() -> (r: ScratchBuffer)
        ensures
            r.wf(),
            r.write_mark() == 0,
            r.read_mark() == 0,
    {
        ScratchBuffer { bytes: vec![0u8; MAX_ENTRIES], read_mark: 0, write_mark: 0 }
    }

    /// Forgets any stored word, as a full decoder reset does.
    pub fn reset(&mut self)
        requires
            old(self).wf(),
        ensures
            final(self).wf(),
            final(self).write_mark() == 0,
            final(self).read_mark() == 0,
    {
        self.read_mark = 0;
        self.write_mark = 0;
    }

    /// The number of undelivered bytes.
    pub fn pending_len(&self) -> (r: usize)
        requires
            self.wf(),
        ensures
            r == self.pending().len(),
    {
        self.write_mark - self.read_mark
    }

    /// Decodes the word for `code` into the buffer, replacing whatever was
    /// stored, and marks the whole word undelivered.  Returns its first byte.
    pub fn fill_reconstruct(&mut self, table: &Table, code: Code, min_size: u8) -> (r: u8)
        requires
            old(self).wf(),
            table.wf(min_size),
            is_word_code(code as int, spec_literal_count(min_size), table.links().len() as int),
        ensures
            final(self).wf(),
            final(self).read_mark() == 0,
            final(self).write_mark() == table.depth_seq()[code as int],
            final(self).pending() =~= table.word(min_size, code as int),
            final(self).stored() =~= table.word(min_size, code as int),
            r == table.word(min_size, code as int)[0],
    {
        proof {
            table.lemma_depth_bound(min_size, code as int);
            table.lemma_word_shape(min_size, code as int);
        }
        self.read_mark = 0;
        let depth = table.depth_of(code) as usize;
        let last = table.reconstruct(code, min_size, &mut self.bytes, 0, depth);
        self.write_mark = depth;
        last
    }

    /// The cScSc shortcut: extends the stored word by its own first byte —
    /// the word for a code that is just being defined — without a table
    /// lookup, and marks it all undelivered.  Returns that first byte.
    pub fn fill_cscsc(&mut self) -> (r: u8)
        requires
            old(self).wf(),
            1 <= old(self).write_mark() < MAX_ENTRIES as int,
        ensures
            final(self).wf(),
            final(self).read_mark() == 0,
            final(self).write_mark() == old(self).write_mark() + 1,
            final(self).pending() =~= old(self).stored().push(old(self).data()[0]),
            final(self).stored() =~= old(self).stored().push(old(self).data()[0]),
            r == old(self).data()[0],
    {
        let cha = self.bytes[0];
        let mark = self.write_mark;
        self.bytes[mark] = cha;
        self.write_mark = mark + 1;
        self.read_mark = 0;
        cha
    }

    /// Stores a copy of `out[from .. from + len]` as the last decoded word,
    /// already fully delivered (nothing pending).
    pub fn store_delivered(&mut self, out: &Vec<u8>, from: usize, len: usize)
        requires
            old(self).wf(),
            len <= MAX_ENTRIES,
            from + len <= out.len(),
        ensures
            final(self).wf(),
            final(self).read_mark() == len,
            final(self).write_mark() == len,
            final(self).stored() =~= out@.subrange(from as int, (from + len) as int),
            final(self).pending().len() == 0,
    {
        let olen: usize = out.len();
        let mut k: usize = 0;
        while k < len
            invariant
                k <= len,
                len <= MAX_ENTRIES,
                from + len <= olen,
                olen as int == out@.len(),
                self.bytes@.len() == MAX_ENTRIES as int,
                forall|j: int| 0 <= j < k as int ==> self.bytes@[j] == out@[from + j],
            decreases len - k,
        {
            self.bytes[k] = out[from + k];
            k = k + 1;
        }
        self.read_mark = len;
        self.write_mark = len;
    }

    /// Delivers `n` pending bytes into `out[start .. start + n]`.
    pub fn drain_into(&mut self, out: &mut Vec<u8>, start: usize, n: usize)
        requires
            old(self).wf(),
            n <= old(self).pending().len(),
            start + n <= old(out).len(),
        ensures
            final(self).wf(),
            final(self).data() == old(self).data(),
            final(self).write_mark() == old(self).write_mark(),
            final(self).read_mark() == old(self).read_mark() + n,
            final(out)@.len() == old(out)@.len(),
            final(out)@.subrange(start as int, (start + n) as int) =~= old(self).pending().take(
                n as int,
            ),
            forall|j: int| 0 <= j < start ==> final(out)@[j] == old(out)@[j],
            forall|j: int| start + n <= j < old(out)@.len() ==> final(out)@[j] == old(out)@[j],
    {
        let olen: usize = out.len();
        let mut k: usize = 0;
        while k < n
            invariant
                k <= n,
                self.wf(),
                self == old(self),
                n <= self.pending().len(),
                start + n <= olen,
                olen as int == out@.len(),
                out@.len() == old(out)@.len(),
                forall|j: int|
                    start as int <= j < start + k ==> out@[j] == self.data()[self.read_mark() + (j
                        - start)],
                forall|j: int| 0 <= j < start ==> out@[j] == old(out)@[j],
                forall|j: int| start + n <= j < old(out)@.len() ==> out@[j] == old(out)@[j],
            decreases n - k,
        {
            out[start + k] = self.bytes[self.read_mark + k];
            k = k + 1;
        }
        self.read_mark = self.read_mark + n;
    }

    /// Copies the first `n` bytes of the stored word into
    /// `out[start .. start + n]` without consuming anything.
    pub fn copy_stored_to(&self, out: &mut Vec<u8>, start: usize, n: usize)
        requires
            self.wf(),
            n <= self.write_mark(),
            start + n <= old(out).len(),
        ensures
            final(out)@.len() == old(out)@.len(),
            final(out)@.subrange(start as int, (start + n) as int) =~= self.stored().take(n as int),
            forall|j: int| 0 <= j < start ==> final(out)@[j] == old(out)@[j],
            forall|j: int| start + n <= j < old(out)@.len() ==> final(out)@[j] == old(out)@[j],
    {
        let olen: usize = out.len();
        let mut k: usize = 0;
        while k < n
            invariant
                k <= n,
                self.wf(),
                n <= self.write_mark(),
                start + n <= olen,
                olen as int == out@.len(),
                out@.len() == old(out)@.len(),
                forall|j: int| start as int <= j < start + k ==> out@[j] == self.data()[j - start],
                forall|j: int| 0 <= j < start ==> out@[j] == old(out)@[j],
                forall|j: int| start + n <= j < old(out)@.len() ==> out@[j] == old(out)@[j],
            decreases n - k,
        {
            out[start + k] = self.bytes[k];
            k = k + 1;
        }
    }

    /// The length of the stored word.
    pub fn stored_len(&self) -> (r: usize)
        requires
            self.wf(),
        ensures
            r == self.write_mark(),
    {
        self.write_mark
    }

    /// The first byte of the stored word.
    pub fn first_byte(&self) -> (r: u8)
        requires
            self.wf(),
            self.write_mark() >= 1,
        ensures
            r == self.stored()[0],
    {
        self.bytes[0]
    }
}

} // verus!
