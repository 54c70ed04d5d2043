//! The LZW dictionary: an append-only, index-addressed array of back-linked
//! entries.  The word a code stands for is reconstructed by walking the
//! `prev` links back to a literal, collecting one byte per step.

use vstd::prelude::*;

use crate::Code;
use crate::MAX_ENTRIES;

verus! {

/// One dictionary entry.  The word for this entry is the word for `prev`
/// extended by `byte`; `first` caches the first byte of the word so a
/// derivation never needs a second chain walk.
#[derive(Clone, Copy, Debug, PartialEq, Eq, Structural)]
pub struct Link {
    pub prev: Code,
    pub byte: u8,
    pub first: u8,
}

/// The most recently decoded code together with the first byte of its word;
/// deriving the next dictionary entry needs exactly this.
#[derive(Clone, Copy, Debug, PartialEq, Eq, Structural)]
pub struct DerivationBase {
    pub code: Code,
    pub first: u8,
}

/// The dictionary proper: entry `c` of `inner` describes the word for code
/// `c`, and `depths[c]` is that word's length.
pub struct Table {
    inner: Vec<Link>,
    depths: Vec<u16>,
}

/// The number of literal codes for a given minimum code size.
pub open spec fn spec_literal_count(min_size: u8) -> int {
    (1u16 << min_size) as int
}

/// The largest number of entries a table for `min_size` can hold: the usual
/// 4096, except that the degenerate `min_size == 12` already starts with
/// 4098 fixed entries (4096 literals, clear, end) and never grows.
pub open spec fn spec_table_cap(min_size: u8) -> int {
    if spec_literal_count(min_size) + 2 > MAX_ENTRIES as int {
        spec_literal_count(min_size) + 2
    } else {
        MAX_ENTRIES as int
    }
}

/// With `2 <= min_size <= 12` the literal alphabet has between 4 and 4096
/// entries.
pub proof fn lemma_literal_count_bounds(min_size: u8)
    requires
        2 <= min_size <= 12,
    ensures
        4 <= spec_literal_count(min_size) <= 4096,
{
    assert(2 <= min_size <= 12 ==> 4 <= (1u16 << min_size) <= 4096) by (bit_vector);
}

/// The low byte of a 16-bit literal index, as the initial alphabet stores it.
pub proof fn lemma_u16_low_byte(i: u16)
    ensures
        (i as u8) as int == (i as int) % 256,
{
    assert((i as u8) as int == (i as int) % 256) by (bit_vector);
}

/// Is `c` a code whose word is defined: a literal or a dynamic entry of a
/// table of `len` entries?  The clear and end codes (`lits` and `lits + 1`)
/// carry no word.
pub open spec fn is_word_code(c: int, lits: int, len: int) -> bool {
    &&& 0 <= c < len
    &&& (c < lits || lits + 2 <= c)
}

/// The word (byte sequence) that code `c` stands for in the entry sequence
/// `t`: a literal is its own single byte, and a dynamic entry is the word of
/// its predecessor extended by one byte.
pub open spec fn word_of(t: Seq<Link>, lits: int, c: int) -> Seq<u8>
    decreases c,
{
    if 0 <= c < t.len() {
        if c < lits {
            seq![t[c].byte]
        } else if 0 <= t[c].prev < c {
            word_of(t, lits, t[c].prev as int).push(t[c].byte)
        } else {
            Seq::empty()
        }
    } else {
        Seq::empty()
    }
}

/// The entry sequence of a freshly initialized table: the literal alphabet,
/// then placeholder entries for the clear and the end code.
pub open spec fn spec_init_links(min_size: u8) -> Seq<Link> {
    Seq::new(
        (spec_literal_count(min_size) + 2) as nat,
        |i: int|
            if i < spec_literal_count(min_size) {
                Link { prev: 0, byte: (i % 256) as u8, first: (i % 256) as u8 }
            } else {
                Link { prev: 0, byte: 0, first: 0 }
            },
    )
}

/// The depth sequence of a freshly initialized table: every literal word has
/// length 1; the clear and end placeholders have length 0.
pub open spec fn spec_init_depths(min_size: u8) -> Seq<u16> {
    Seq::new(
        (spec_literal_count(min_size) + 2) as nat,
        |i: int| if i < spec_literal_count(min_size) { 1u16 } else { 0u16 },
    )
}

impl Link {
    /// The entry for a literal code: a one-byte word.
    pub fn base(byte: u8) -> (r: Link)
        ensures
            r == (Link { prev: 0, byte, first: byte }),
    {
        Link { prev: 0, byte, first: byte }
    }
}

impl DerivationBase {
    /// Is this a base the table can derive from: a code with a word, whose
    /// cached first byte is right?
    pub open spec fn valid_for(self, t: Table, min_size: u8) -> bool {
        &&& is_word_code(self.code as int, spec_literal_count(min_size), t.links().len() as int)
        &&& self.first == t.links()[self.code as int].first
    }
}

impl Table {
    /// The entries, as a mathematical sequence.
    pub closed spec fn links(self) -> Seq<Link> {
        self.inner@
    }

    /// The word lengths, as a mathematical sequence.
    pub closed spec fn depth_seq(self) -> Seq<u16> {
        self.depths@
    }

    /// The word code `c` stands for in this table.
    pub open spec fn word(self, min_size: u8, c: int) -> Seq<u8> {
        word_of(self.links(), spec_literal_count(min_size), c)
    }

    /// Well-formedness of the single entry `i`: the literal block and the
    /// two placeholders are exactly as `init` laid them out, and a dynamic
    /// entry points back at an earlier word code, with a consistent depth
    /// and first byte.
    pub open spec fn entry_wf(self, lits: int, i: int) -> bool {
        &&& (i < lits ==> self.links()[i] == (Link {
            prev: 0,
            byte: (i % 256) as u8,
            first: (i % 256) as u8,
        }) && self.depth_seq()[i] == 1)
        &&& (lits <= i < lits + 2 ==> self.links()[i] == (Link { prev: 0, byte: 0, first: 0 })
            && self.depth_seq()[i] == 0)
        &&& (lits + 2 <= i ==> {
            let p = self.links()[i].prev as int;
            &&& is_word_code(p, lits, i)
            &&& self.depth_seq()[i] == self.depth_seq()[p] + 1
            &&& self.depth_seq()[i] <= i - lits
            &&& self.links()[i].first == self.links()[p].first
        })
    }

    /// Well-formedness of the whole table.
    pub open spec fn wf(self, min_size: u8) -> bool {
        let lits = spec_literal_count(min_size);
        let len = self.links().len() as int;
        &&& 2 <= min_size <= 12
        &&& self.depth_seq().len() == len
        &&& (len == 0 || len >= lits + 2)
        &&& len <= spec_table_cap(min_size)
        &&& forall|i: int| 0 <= i < len ==> #[trigger] self.entry_wf(lits, i)
    }

    /// In a well-formed table, the word of every word code has its recorded
    /// depth as length, starts with the cached first byte, and is never
    /// empty.
    pub proof fn lemma_word_shape(self, min_size: u8, c: int)
        requires
            self.wf(min_size),
            is_word_code(c, spec_literal_count(min_size), self.links().len() as int),
        ensures
            self.word(min_size, c).len() == self.depth_seq()[c],
            self.word(min_size, c).len() >= 1,
            self.word(min_size, c)[0] == self.links()[c].first,
        decreases c,
    {
        let lits = spec_literal_count(min_size);
        assert(self.entry_wf(lits, c));
        if c < lits {
        } else {
            let p = self.links()[c].prev as int;
            self.lemma_word_shape(min_size, p);
        }
    }

    /// No word outgrows the scratch buffer: a literal word has one byte, and
    /// a dynamic entry's word is shorter than its own index.
    pub proof fn lemma_depth_bound(self, min_size: u8, c: int)
        requires
            self.wf(min_size),
            is_word_code(c, spec_literal_count(min_size), self.links().len() as int),
        ensures
            1 <= self.depth_seq()[c] <= 4095,
    {
        let lits = spec_literal_count(min_size);
        assert(self.entry_wf(lits, c));
        lemma_literal_count_bounds(min_size);
        if lits + 2 <= c {
            assert(c < self.links().len());
            assert(self.links().len() <= spec_table_cap(min_size));
        }
    }

    /// Appending entries leaves the words of all existing codes unchanged.
    pub proof fn lemma_word_stable(t1: Seq<Link>, t2: Seq<Link>, lits: int, c: int)
        requires
            t1.len() <= t2.len(),
            forall|i: int| 0 <= i < t1.len() ==> t1[i] == t2[i],
            c < t1.len(),
        ensures
            word_of(t1, lits, c) == word_of(t2, lits, c),
        decreases c,
    {
        if 0 <= c < t1.len() {
            if c < lits {
            } else if 0 <= t1[c].prev < c {
                Self::lemma_word_stable(t1, t2, lits, t1[c].prev as int);
            }
        }
    }

    /// A new, unallocated table; `init` gives it its contents.
    pub fn new() -> (r: Table)
        ensures
            r.links().len() == 0,
            r.depth_seq().len() == 0,
    {
        Table { inner: Vec::with_capacity(MAX_ENTRIES), depths: Vec::with_capacity(MAX_ENTRIES) }
    }

    pub fn is_empty(&self) -> (r: bool)
        ensures
            r == (self.links().len() == 0),
    {
        self.inner.is_empty()
    }

    /// Full tables accept no further entries; this is normal saturation,
    /// not an error.
    pub fn is_full(&self) -> (r: bool)
        ensures
            r == (self.links().len() >= MAX_ENTRIES),
    {
        self.inner.len() >= MAX_ENTRIES
    }

    pub fn len(&self) -> (r: usize)
        ensures
            r == self.links().len(),
    {
        self.inner.len()
    }

    pub fn at(&self, code: Code) -> (r: Link)
        requires
            code < self.links().len(),
        ensures
            r == self.links()[code as int],
    {
        self.inner[code as usize]
    }

    /// The recorded length of the word for `code`.
    pub fn depth_of(&self, code: Code) -> (r: u16)
        requires
            code < self.depth_seq().len(),
        ensures
            r == self.depth_seq()[code as int],
    {
        self.depths[code as usize]
    }

    /// Clears the table and repopulates the literal alphabet and the two
    /// placeholder entries.
    pub fn init(&mut self, min_size: u8)
        requires
            2 <= min_size <= 12,
        ensures
            final(self).wf(min_size),
            final(self).links() =~= spec_init_links(min_size),
            final(self).depth_seq() =~= spec_init_depths(min_size),
    {
        proof {
            lemma_literal_count_bounds(min_size);
        }
        self.inner.clear();
        self.depths.clear();
        let count: u16 = 1u16 << min_size;
        let mut i: u16 = 0;
        while i < count
            invariant
                i <= count,
                count as int == spec_literal_count(min_size),
                count <= 4096,
                self.inner@.len() == i as int,
                self.depths@.len() == i as int,
                forall|j: int|
                    #![trigger self.inner@[j]]
                    0 <= j < i as int ==> self.inner@[j] == (Link {
                        prev: 0,
                        byte: (j % 256) as u8,
                        first: (j % 256) as u8,
                    }),
                forall|j: int|
                    #![trigger self.depths@[j]]
                    0 <= j < i as int ==> self.depths@[j] == 1,
            decreases count - i,
        {
            proof {
                lemma_u16_low_byte(i);
            }
            self.inner.push(Link::base(#[verifier::truncate] (i as u8)));
            self.depths.push(1);
            i = i + 1;
        }
        // Clear code placeholder.
        self.inner.push(Link::base(0));
        self.depths.push(0);
        // End code placeholder.
        self.inner.push(Link::base(0));
        self.depths.push(0);
        proof {
            let lits = spec_literal_count(min_size);
            assert(self.links() =~= spec_init_links(min_size));
            assert(self.depth_seq() =~= spec_init_depths(min_size));
            assert forall|j: int| 0 <= j < self.links().len() as int implies self.entry_wf(
                lits,
                j,
            ) by {
                assert(self.links()[j] == spec_init_links(min_size)[j]);
                assert(self.depth_seq()[j] == spec_init_depths(min_size)[j]);
            }
        }
    }

    /// Discards the dynamic entries appended after the literal + clear + end
    /// block.  In a well-formed table this restores exactly the contents a
    /// fresh `init` would give, without touching the fixed block: the table
    /// after an in-stream clear code is the initial table.
    pub fn clear(&mut self, min_size: u8)
        requires
            old(self).wf(min_size),
            old(self).links().len() > 0,
        ensures
            final(self).wf(min_size),
            final(self).links() =~= spec_init_links(min_size),
            final(self).depth_seq() =~= spec_init_depths(min_size),
    {
        proof {
            lemma_literal_count_bounds(min_size);
            assert((1usize << min_size) as int == spec_literal_count(min_size)) by (bit_vector)
                requires
                    2 <= min_size <= 12,
            ;
        }
        let static_count: usize = (1usize << min_size) + 2;
        self.inner.truncate(static_count);
        self.depths.truncate(static_count);
        proof {
            let lits = spec_literal_count(min_size);
            assert forall|j: int| 0 <= j < static_count as int implies self.links()[j]
                == spec_init_links(min_size)[j] && self.depth_seq()[j] == spec_init_depths(
                min_size,
            )[j] by {
                assert(old(self).entry_wf(lits, j));
            }
            assert(self.links() =~= spec_init_links(min_size));
            assert(self.depth_seq() =~= spec_init_depths(min_size));
            assert forall|j: int| 0 <= j < self.links().len() as int implies self.entry_wf(
                lits,
                j,
            ) by {
                assert(old(self).entry_wf(lits, j));
            }
        }
    }

    /// Appends the entry derived from `from` and the byte that followed it.
    /// The new code's word is the base's word extended by `byte`.
    pub fn derive(&mut self, from: &DerivationBase, byte: u8, min_size: u8)
        requires
            old(self).wf(min_size),
            from.valid_for(*old(self), min_size),
            old(self).links().len() < MAX_ENTRIES,
        ensures
            final(self).wf(min_size),
            final(self).links() =~= old(self).links().push(
                Link { prev: from.code, byte, first: from.first },
            ),
            final(self).depth_seq() =~= old(self).depth_seq().push(
                (old(self).depth_seq()[from.code as int] + 1) as u16,
            ),
            final(self).word(min_size, old(self).links().len() as int) =~= old(self).word(
                min_size,
                from.code as int,
            ).push(byte),
    {
        let ghost lits = spec_literal_count(min_size);
        proof {
            assert(old(self).entry_wf(lits, from.code as int));
        }
        let link = Link { prev: from.code, byte, first: from.first };
        let depth = self.depths[from.code as usize] + 1;
        let ghost old_links = self.inner@;
        let ghost old_depths = self.depths@;
        self.inner.push(link);
        self.depths.push(depth);
        proof {
            let c = old_links.len() as int;
            assert(self.inner@ =~= old_links.push(link));
            assert(self.depths@ =~= old_depths.push(depth));
            Self::lemma_word_stable(old_links, self.inner@, lits, from.code as int);
            assert(self.inner@[c].prev as int == from.code as int);
            assert(self.word(min_size, c) =~= word_of(old_links, lits, from.code as int).push(
                byte,
            ));
            assert forall|i: int| 0 <= i < self.inner@.len() as int implies self.entry_wf(
                lits,
                i,
            ) by {
                if i < c {
                    assert(old(self).entry_wf(lits, i));
                    assert(self.links()[i] == old(self).links()[i]);
                    if lits + 2 <= i {
                        assert((old(self).links()[i].prev as int) < i);
                    }
                } else {
                    assert(self.links()[i] == link);
                    assert(old(self).entry_wf(lits, from.code as int));
                }
            }
            assert(self.wf(min_size));
        }
    }

    /// One step of a chain walk: what the entry at `code_iter` contributes
    /// when `i` bytes of the word for `code` remain to be written.
    proof fn lemma_walk_step(self, min_size: u8, code: Code, code_iter: Code, i: int)
        requires
            self.wf(min_size),
            is_word_code(code as int, spec_literal_count(min_size), self.links().len() as int),
            is_word_code(
                code_iter as int,
                spec_literal_count(min_size),
                self.links().len() as int,
            ),
            code_iter <= code,
            1 <= i <= self.word(min_size, code as int).len(),
            self.depth_seq()[code_iter as int] == i,
            self.word(min_size, code_iter as int) == self.word(min_size, code as int).take(i),
        ensures
            self.links()[code_iter as int].byte == self.word(min_size, code as int)[i - 1],
            i > 1 ==> {
                let p = self.links()[code_iter as int].prev as int;
                &&& p < code_iter as int
                &&& is_word_code(p, spec_literal_count(min_size), self.links().len() as int)
                &&& self.depth_seq()[p] == i - 1
                &&& self.word(min_size, p) == self.word(min_size, code as int).take(i - 1)
            },
    {
        let lits = spec_literal_count(min_size);
        let w = self.word(min_size, code as int);
        let wi = self.word(min_size, code_iter as int);
        assert(self.entry_wf(lits, code_iter as int));
        self.lemma_word_shape(min_size, code_iter as int);
        assert(wi.len() == i);
        if (code_iter as int) < lits {
            assert(wi == seq![self.links()[code_iter as int].byte]);
            assert(i == 1);
            assert(wi[0] == w.take(1)[0]);
        } else {
            let p = self.links()[code_iter as int].prev as int;
            let wp = self.word(min_size, p);
            assert(wi == wp.push(self.links()[code_iter as int].byte));
            assert(wi[i - 1] == self.links()[code_iter as int].byte);
            assert(w[i - 1] == wi[i - 1]);
            if i > 1 {
                self.lemma_word_shape(min_size, p);
                assert(wp =~= w.take(i - 1)) by {
                    assert(wp.len() == i - 1);
                    assert(forall|j: int| 0 <= j < i - 1 ==> wp[j] == wi[j]);
                }
            }
        }
    }

    /// Reconstructs the word for `code` into `out[start .. start + count]`,
    /// walking the back-link chain and writing bytes in reverse (the chain
    /// yields the word's suffix first).  Returns the word's first byte.
    /// `count` must be the word's recorded length.
    pub fn reconstruct(
        &self,
        code: Code,
        min_size: u8,
        out: &mut Vec<u8>,
        start: usize,
        count: usize,
    ) -> (r: u8)
        requires
            self.wf(min_size),
            is_word_code(code as int, spec_literal_count(min_size), self.links().len() as int),
            count == self.depth_seq()[code as int],
            start + count <= old(out).len(),
        ensures
            final(out)@.len() == old(out)@.len(),
            final(out)@.subrange(start as int, (start + count) as int) =~= self.word(
                min_size,
                code as int,
            ),
            forall|i: int| 0 <= i < start ==> final(out)@[i] == old(out)@[i],
            forall|i: int|
                start + count <= i < old(out)@.len() ==> final(out)@[i] == old(out)@[i],
            r == self.links()[code as int].first,
            r == self.word(min_size, code as int)[0],
    {
        proof {
            self.lemma_word_shape(min_size, code as int);
        }
        let ghost w = self.word(min_size, code as int);
        let first = self.inner[code as usize].first;
        let mut code_iter = code;
        let mut i = count;
        while i > 0
            invariant
                self.wf(min_size),
                i <= count,
                count == w.len(),
                w == self.word(min_size, code as int),
                is_word_code(code as int, spec_literal_count(min_size), self.links().len() as int),
                start + count <= out@.len(),
                out@.len() == old(out)@.len(),
                i > 0 ==> is_word_code(
                    code_iter as int,
                    spec_literal_count(min_size),
                    self.links().len() as int,
                ),
                i > 0 ==> code_iter <= code,
                i > 0 ==> self.depth_seq()[code_iter as int] == i,
                i > 0 ==> self.word(min_size, code_iter as int) == w.take(i as int),
                out@.subrange((start + i) as int, (start + count) as int) =~= w.skip(i as int),
                forall|j: int| 0 <= j < start + i ==> out@[j] == old(out)@[j],
                forall|j: int|
                    start + count <= j < old(out)@.len() ==> out@[j] == old(out)@[j],
            decreases i,
        {
            proof {
                self.lemma_walk_step(min_size, code, code_iter, i as int);
            }
            let olen: usize = out.len();
            let entry = self.inner[code_iter as usize];
            let ghost before = out@;
            let idx = start + (i - 1);
            out[idx] = entry.byte;
            proof {
                assert(out@ == before.update(idx as int, entry.byte));
                assert(out@.subrange((start + i - 1) as int, (start + count) as int) =~= w.skip(
                    i - 1,
                )) by {
                    assert forall|j: int| start + i - 1 <= j < start + count implies out@[j]
                        == w[j - start] by {
                        if j == start + i - 1 {
                            assert(out@[j] == entry.byte);
                        } else {
                            assert(out@[j] == before[j]);
                            assert(before.subrange((start + i) as int, (start + count) as int)[j
                                - start - i] == w.skip(i as int)[j - start - i]);
                        }
                    }
                }
            }
            code_iter = if entry.prev < code {
                entry.prev
            } else {
                code
            };
            i = i - 1;
        }
        first
    }
}

} // verus!
