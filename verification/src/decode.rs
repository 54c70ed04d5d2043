//! The resumable decode engine: orchestrates the code buffer, the dictionary
//! and the scratch buffer, and implements the core decode loop with its
//! batched ("burst") fast path.

use vstd::prelude::*;

use vstd::arithmetic::power2::lemma2_to64;
use vstd::arithmetic::power2::pow2;

use crate::BitOrder;
use crate::BufferResult;
use crate::Code;
use crate::LzwError;
use crate::LzwStatus;
use crate::MAX_CODESIZE;
use crate::MAX_ENTRIES;
use crate::bitbuf::BURST;
use crate::bitbuf::CodeBuffer;
use crate::bitbuf::lemma_code_at_shift;
use crate::bitbuf::lemma_first_rest_push;
use crate::bitbuf::lemma_push_bytes_append;
use crate::bitbuf::lemma_rest_k_snoc;
use crate::bitbuf::new_burst_vec;
use crate::bitbuf::spec_code_at;
use crate::bitbuf::spec_first_code;
use crate::bitbuf::spec_max_width;
use crate::bitbuf::spec_push_byte;
use crate::bitbuf::spec_push_bytes;
use crate::bitbuf::spec_rest;
use crate::bitbuf::spec_rest_k;
use crate::table::Link;
use crate::table::spec_init_links;
use crate::table::word_of;
use crate::scratch::ScratchBuffer;
use crate::table::DerivationBase;
use crate::table::Table;
use crate::table::is_word_code;
use crate::table::lemma_literal_count_bounds;
use crate::table::spec_literal_count;

use crate::table::spec_table_cap;

verus! {

/// Does appending one more dictionary entry push `next_code` over what the
/// current code width can express?  `next_code` is the value before the
/// entry is counted; under the TIFF variant the switch comes one code
/// earlier.
pub open spec fn spec_bump_boundary(code_size: nat, next_code: nat, tiff: bool) -> bool {
    &&& next_code + (if tiff {
        1nat
    } else {
        0nat
    }) + 1 >= pow2(code_size)
    &&& code_size < MAX_CODESIZE as nat
}

/// The mathematical state of the engine, as the public contracts speak of
/// it: the dictionary entries, the entry counter, the code width, the
/// derivation base of the sequence in progress, and the ended flag.
pub struct EngineModel {
    pub links: Seq<Link>,
    pub next_code: nat,
    pub width: nat,
    pub last: Option<DerivationBase>,
    pub ended: bool,
}

/// The model right after the dictionary is (re)initialized.
pub open spec fn spec_fresh_model(min_size: u8, ended: bool) -> EngineModel {
    EngineModel {
        links: spec_init_links(min_size),
        next_code: (spec_literal_count(min_size) + 2) as nat,
        width: (min_size + 1) as nat,
        last: None,
        ended,
    }
}

/// One decode step: how a single extracted code transforms the engine and
/// which bytes it emits; the flag reports an invalid code.  The decode loop
/// is proved against this function, step for step: the clear code restores
/// the fresh dictionary, the end code ends the stream, the first code of a
/// sequence only emits its word, and every later code emits its word (the
/// previous word extended by its own first byte, when the code is the entry
/// being defined) and derives one entry — none once the table is full, with
/// the width growing exactly at `spec_bump_boundary`.
pub open spec fn spec_step(min_size: u8, tiff: bool, m: EngineModel, code: nat) -> (
    EngineModel,
    Seq<u8>,
    bool,
) {
    let lits = spec_literal_count(min_size);
    if code == lits {
        (spec_fresh_model(min_size, m.ended), Seq::<u8>::empty(), false)
    } else if code == lits + 1 {
        (EngineModel { ended: true, last: None, ..m }, Seq::<u8>::empty(), false)
    } else if m.last is None {
        if code >= m.next_code {
            (EngineModel { last: None, ..m }, Seq::<u8>::empty(), true)
        } else {
            let m1 = if m.links.len() == 0 {
                spec_fresh_model(min_size, m.ended)
            } else {
                m
            };
            let w = word_of(m1.links, lits, code as int);
            (
                EngineModel {
                    last: Some(DerivationBase { code: code as u16, first: w[0] }),
                    ..m1
                },
                w,
                false,
            )
        }
    } else {
        let d = m.last->Some_0;
        if code > m.next_code || (code == m.next_code && m.links.len() >= MAX_ENTRIES as nat) {
            (EngineModel { last: None, ..m }, Seq::<u8>::empty(), true)
        } else {
            let w = if code == m.next_code {
                word_of(m.links, lits, d.code as int).push(d.first)
            } else {
                word_of(m.links, lits, code as int)
            };
            let cha = w[0];
            let derived = m.links.len() < MAX_ENTRIES as nat;
            (
                EngineModel {
                    links: if derived {
                        m.links.push(Link { prev: d.code, byte: cha, first: d.first })
                    } else {
                        m.links
                    },
                    next_code: if derived {
                        m.next_code + 1
                    } else {
                        m.next_code
                    },
                    width: if derived && spec_bump_boundary(m.width, m.next_code, tiff) {
                        m.width + 1
                    } else {
                        m.width
                    },
                    last: Some(DerivationBase { code: code as u16, first: cha }),
                    ended: m.ended,
                },
                w,
                false,
            )
        }
    }
}

/// The decode relation: from model `m` with the register holding `l` in `b`
/// bits, zero or more steps — each extracting one code at the model's
/// current width — reach `m_end` with register `(l_end, b_end)`, emitting
/// `produced`, ending in an invalid code iff `err`; a run stops early only
/// at an error or the end code.  The register shrinks with every step, so
/// the endpoints determine the run.
#[verifier::opaque]
pub open spec fn spec_decodes(
    min_size: u8,
    tiff: bool,
    order: BitOrder,
    m: EngineModel,
    l: nat,
    b: nat,
    m_end: EngineModel,
    l_end: nat,
    b_end: nat,
    produced: Seq<u8>,
    err: bool,
) -> bool
    decreases b,
{
    ||| (m_end == m && l_end == l && b_end == b && produced == Seq::<u8>::empty() && !err)
    ||| (0 < m.width <= b && !m.ended && {
        let c = spec_first_code(order, l, b, m.width);
        let l1 = spec_rest(order, l, b, m.width);
        let b1 = (b - m.width) as nat;
        let (m1, w, e1) = spec_step(min_size, tiff, m, c);
        if e1 || m1.ended {
            m_end == m1 && l_end == l1 && b_end == b1 && produced == w && err == e1
        } else {
            exists|d2: Seq<u8>|
                produced == w + d2 && spec_decodes(
                    min_size,
                    tiff,
                    order,
                    m1,
                    l1,
                    b1,
                    m_end,
                    l_end,
                    b_end,
                    d2,
                    err,
                )
        }
    })
}

/// The empty run: every configuration decodes to itself.
pub proof fn lemma_decodes_refl(
    min_size: u8,
    tiff: bool,
    order: BitOrder,
    m: EngineModel,
    l: nat,
    b: nat,
)
    ensures
        spec_decodes(min_size, tiff, order, m, l, b, m, l, b, Seq::<u8>::empty(), false),
{
    reveal(spec_decodes);
}

/// One step of the decode relation, from the step function's own outputs.
pub proof fn lemma_decodes_step(
    min_size: u8,
    tiff: bool,
    order: BitOrder,
    m: EngineModel,
    l: nat,
    b: nat,
)
    requires
        0 < m.width <= b,
        !m.ended,
    ensures
        ({
            let c = spec_first_code(order, l, b, m.width);
            let (m1, w, e1) = spec_step(min_size, tiff, m, c);
            spec_decodes(
                min_size,
                tiff,
                order,
                m,
                l,
                b,
                m1,
                spec_rest(order, l, b, m.width),
                (b - m.width) as nat,
                w,
                e1,
            )
        }),
{
    reveal(spec_decodes);
    let c = spec_first_code(order, l, b, m.width);
    let l1 = spec_rest(order, l, b, m.width);
    let b1 = (b - m.width) as nat;
    let (m1, w, e1) = spec_step(min_size, tiff, m, c);
    if !(e1 || m1.ended) {
        assert(w + Seq::<u8>::empty() =~= w);
        assert(spec_decodes(
            min_size,
            tiff,
            order,
            m1,
            l1,
            b1,
            m1,
            l1,
            b1,
            Seq::<u8>::empty(),
            false,
        ));
    }
}

/// Error-free runs chain: a run to `B` followed by a run from `B` is a run
/// to the latter's end, emitting the concatenation.
pub proof fn lemma_decodes_trans(
    min_size: u8,
    tiff: bool,
    order: BitOrder,
    m_a: EngineModel,
    l_a: nat,
    b_a: nat,
    m_b: EngineModel,
    l_b: nat,
    b_b: nat,
    m_c: EngineModel,
    l_c: nat,
    b_c: nat,
    d1: Seq<u8>,
    d2: Seq<u8>,
    err: bool,
)
    requires
        spec_decodes(min_size, tiff, order, m_a, l_a, b_a, m_b, l_b, b_b, d1, false),
        spec_decodes(min_size, tiff, order, m_b, l_b, b_b, m_c, l_c, b_c, d2, err),
    ensures
        spec_decodes(min_size, tiff, order, m_a, l_a, b_a, m_c, l_c, b_c, d1 + d2, err),
    decreases b_a,
{
    reveal(spec_decodes);
    if m_b == m_a && l_b == l_a && b_b == b_a && d1 == Seq::<u8>::empty() {
        assert(d1 + d2 =~= d2);
    } else {
        let c = spec_first_code(order, l_a, b_a, m_a.width);
        let l1 = spec_rest(order, l_a, b_a, m_a.width);
        let b1 = (b_a - m_a.width) as nat;
        let (m1, w, e1) = spec_step(min_size, tiff, m_a, c);
        if e1 || m1.ended {
            // The first run stopped here without error, so it ended the
            // stream; the second run from an ended model can only be empty.
            assert(m_b == m1 && l_b == l1 && b_b == b1 && d1 == w);
            assert(m_c == m_b && l_c == l_b && b_c == b_b && d2 == Seq::<u8>::empty() && !err);
            assert(d1 + d2 =~= d1);
        } else {
            let dd = choose|dd: Seq<u8>|
                d1 == w + dd && spec_decodes(
                    min_size,
                    tiff,
                    order,
                    m1,
                    l1,
                    b1,
                    m_b,
                    l_b,
                    b_b,
                    dd,
                    false,
                );
            lemma_decodes_trans(
                min_size,
                tiff,
                order,
                m1,
                l1,
                b1,
                m_b,
                l_b,
                b_b,
                m_c,
                l_c,
                b_c,
                dd,
                d2,
                err,
            );
            assert(d1 + d2 =~= w + (dd + d2));
        }
    }
}

/// A run is unchanged by a byte appended at the back of the register: the
/// byte rides along into the leftover register.
pub proof fn lemma_decodes_push(
    min_size: u8,
    tiff: bool,
    order: BitOrder,
    m: EngineModel,
    l: nat,
    b: nat,
    m2: EngineModel,
    l2: nat,
    b2: nat,
    d: Seq<u8>,
    err: bool,
    x: u8,
)
    requires
        spec_decodes(min_size, tiff, order, m, l, b, m2, l2, b2, d, err),
    ensures
        spec_decodes(
            min_size,
            tiff,
            order,
            m,
            spec_push_byte(order, l, b, x),
            (b + 8) as nat,
            m2,
            spec_push_byte(order, l2, b2, x),
            (b2 + 8) as nat,
            d,
            err,
        ),
    decreases b,
{
    reveal(spec_decodes);
    if m2 == m && l2 == l && b2 == b && d == Seq::<u8>::empty() && !err {
    } else {
        let c = spec_first_code(order, l, b, m.width);
        let l1 = spec_rest(order, l, b, m.width);
        let b1 = (b - m.width) as nat;
        let (m1, w, e1) = spec_step(min_size, tiff, m, c);
        lemma_first_rest_push(order, l, b, m.width, x);
        if e1 || m1.ended {
        } else {
            let dd = choose|dd: Seq<u8>|
                d == w + dd && spec_decodes(
                    min_size,
                    tiff,
                    order,
                    m1,
                    l1,
                    b1,
                    m2,
                    l2,
                    b2,
                    dd,
                    err,
                );
            lemma_decodes_push(min_size, tiff, order, m1, l1, b1, m2, l2, b2, dd, err, x);
        }
    }
}

/// A run is unchanged by whole byte sequences appended at the back.
pub proof fn lemma_decodes_push_bytes(
    min_size: u8,
    tiff: bool,
    order: BitOrder,
    m: EngineModel,
    l: nat,
    b: nat,
    m2: EngineModel,
    l2: nat,
    b2: nat,
    d: Seq<u8>,
    err: bool,
    bytes: Seq<u8>,
)
    requires
        spec_decodes(min_size, tiff, order, m, l, b, m2, l2, b2, d, err),
    ensures
        spec_decodes(
            min_size,
            tiff,
            order,
            m,
            spec_push_bytes(order, l, b, bytes),
            (b + 8 * bytes.len()) as nat,
            m2,
            spec_push_bytes(order, l2, b2, bytes),
            (b2 + 8 * bytes.len()) as nat,
            d,
            err,
        ),
    decreases bytes.len(),
{
    if bytes.len() > 0 {
        lemma_decodes_push(min_size, tiff, order, m, l, b, m2, l2, b2, d, err, bytes[0]);
        lemma_decodes_push_bytes(
            min_size,
            tiff,
            order,
            m,
            spec_push_byte(order, l, b, bytes[0]),
            (b + 8) as nat,
            m2,
            spec_push_byte(order, l2, b2, bytes[0]),
            (b2 + 8) as nat,
            d,
            err,
            bytes.drop_first(),
        );
    }
}

/// The decode trace of one call: starting from model `m0` with register
/// `(v0, b0)`, the first `in_pos` input bytes were appended and a run of
/// the decode relation reached the current model and register, emitting `d`.
spec fn call_trace(
    ms: u8,
    tf: bool,
    ord: BitOrder,
    m0: EngineModel,
    v0: nat,
    b0: nat,
    inp: Seq<u8>,
    in_pos: int,
    m_now: EngineModel,
    v_now: nat,
    b_now: nat,
    d: Seq<u8>,
    err: bool,
) -> bool {
    spec_decodes(
        ms,
        tf,
        ord,
        m0,
        spec_push_bytes(ord, v0, b0, inp.take(in_pos)),
        (b0 + 8 * in_pos) as nat,
        m_now,
        v_now,
        b_now,
        d,
        err,
    )
}

/// What one decode call did, stated over the decode relation: the consumed
/// input bytes entered the shift register, a run of `spec_decodes` steps
/// from the old model reached the new one, and its emitted bytes — after
/// the previously pending ones — are exactly what the call wrote plus what
/// it left pending.
pub open spec fn spec_advance_ok(
    pre: DecodeState,
    inp: Seq<u8>,
    consumed_in: int,
    post: DecodeState,
    written: Seq<u8>,
    err: bool,
) -> bool {
    exists|d: Seq<u8>|
        {
            &&& #[trigger] spec_decodes(
                pre.spec_min_size(),
                pre.spec_is_tiff(),
                pre.spec_order(),
                pre.spec_model(),
                spec_push_bytes(
                    pre.spec_order(),
                    pre.code_buffer_value(),
                    pre.code_buffer_bits(),
                    inp.take(consumed_in),
                ),
                (pre.code_buffer_bits() + 8 * consumed_in) as nat,
                post.spec_model(),
                post.code_buffer_value(),
                post.code_buffer_bits(),
                d,
                err,
            )
            &&& pre.spec_pending() + d == written + post.spec_pending()
        }
}

/// Packaging one call's trace: a concrete run with emitted bytes `d` is a
/// witness for `spec_advance_ok`.
proof fn lemma_advance_ok_intro(
    pre: DecodeState,
    inp: Seq<u8>,
    consumed_in: int,
    post: DecodeState,
    written: Seq<u8>,
    err: bool,
    d: Seq<u8>,
)
    requires
        spec_decodes(
            pre.spec_min_size(),
            pre.spec_is_tiff(),
            pre.spec_order(),
            pre.spec_model(),
            spec_push_bytes(
                pre.spec_order(),
                pre.code_buffer_value(),
                pre.code_buffer_bits(),
                inp.take(consumed_in),
            ),
            (pre.code_buffer_bits() + 8 * consumed_in) as nat,
            post.spec_model(),
            post.code_buffer_value(),
            post.code_buffer_bits(),
            d,
            err,
        ),
        pre.spec_pending() + d == written + post.spec_pending(),
    ensures
        spec_advance_ok(pre, inp, consumed_in, post, written, err),
{
}

/// The core decoder state: the three leaves and the bookkeeping of the
/// resumable decode loop.
pub struct DecodeState {
    /// The original minimum code size.
    min_size: u8,
    /// The dictionary of decoded codes.
    table: Table,
    /// Carry-over storage for a word that did not fit the caller's output.
    buffer: ScratchBuffer,
    /// The most recently decoded code, if a sequence is in progress.
    last: Option<DerivationBase>,
    /// The next code entry.
    next_code: Code,
    /// The code that resets all tables.
    clear_code: Code,
    /// The code that signals the end of the stream.
    end_code: Code,
    /// Whether the end code has appeared.
    has_ended: bool,
    /// Under TIFF the code width grows one code sooner.
    is_tiff: bool,
    /// May the stream start without an explicit clear code?
    implicit_reset: bool,
    /// Return to the caller the moment the output buffer is exactly full.
    yield_on_full: bool,
    /// The shift register over the input byte stream.
    code_buffer: CodeBuffer,
}

impl DecodeState {
    pub closed spec fn spec_min_size(self) -> u8 {
        self.min_size
    }

    pub closed spec fn spec_has_ended(self) -> bool {
        self.has_ended
    }

    pub closed spec fn spec_is_tiff(self) -> bool {
        self.is_tiff
    }

    pub closed spec fn spec_yield_on_full(self) -> bool {
        self.yield_on_full
    }

    pub closed spec fn spec_order(self) -> BitOrder {
        self.code_buffer.spec_order()
    }

    pub closed spec fn spec_next_code(self) -> Code {
        self.next_code
    }

    pub closed spec fn spec_code_size(self) -> nat {
        self.code_buffer.spec_code_size()
    }

    pub closed spec fn spec_table(self) -> Table {
        self.table
    }

    pub closed spec fn spec_last(self) -> Option<DerivationBase> {
        self.last
    }

    /// The pending decoded bytes that earlier calls could not deliver.
    pub closed spec fn spec_pending(self) -> Seq<u8> {
        self.buffer.pending()
    }

    /// The mathematical state this decoder is in.
    pub open spec fn spec_model(self) -> EngineModel {
        EngineModel {
            links: self.spec_table().links(),
            next_code: self.spec_next_code() as nat,
            width: self.spec_code_size(),
            last: self.spec_last(),
            ended: self.spec_has_ended(),
        }
    }

    /// The model mid-loop, where the derivation base lives in a local
    /// variable rather than in `last`.
    spec fn loop_model(self, code_link: Option<DerivationBase>) -> EngineModel {
        EngineModel {
            links: self.spec_table().links(),
            next_code: self.spec_next_code() as nat,
            width: self.spec_code_size(),
            last: code_link,
            ended: self.spec_has_ended(),
        }
    }

    /// Is `d` a coherent record of the most recently decoded word: a valid
    /// derivation base whose full word sits in the scratch buffer?
    pub closed spec fn last_ok(self, d: DerivationBase) -> bool {
        &&& d.valid_for(self.table, self.min_size)
        &&& (d.code as int) < self.next_code as int
        &&& self.buffer.write_mark() == self.table.depth_seq()[d.code as int]
        &&& self.buffer.stored() == self.table.word(self.min_size, d.code as int)
    }

    /// Well-formedness of everything but the `last` record.
    pub closed spec fn wf_core(self) -> bool {
        &&& 2 <= self.min_size <= 12
        &&& self.clear_code as int == spec_literal_count(self.min_size)
        &&& self.end_code == self.clear_code + 1
        &&& self.table.wf(self.min_size)
        &&& (self.table.links().len() == 0 || self.table.links().len()
            == self.next_code as int)
        &&& (self.table.links().len() == 0 ==> self.next_code as int == self.clear_code + 2)
        &&& self.clear_code + 2 <= self.next_code as int <= spec_table_cap(self.min_size)
        &&& self.code_buffer.wf()
        &&& self.min_size + 1 <= self.spec_code_size() <= spec_max_width(self.min_size)
        &&& self.buffer.wf()
        &&& self.implicit_reset
    }

    /// Well-formedness of the decoder state between calls.
    pub closed spec fn wf(self) -> bool {
        &&& self.wf_core()
        &&& match self.last {
            Some(d) => self.last_ok(d),
            None => self.buffer.pending().len() == 0,
        }
    }

    /// Coherence of the in-flight decode-loop record: the base is valid,
    /// and the word it stands for is either a region of `out` already
    /// written (when `have_last`) or the scratch buffer's stored word.
    spec fn link_ok(
        self,
        code_link: Option<DerivationBase>,
        have_last: bool,
        last_start: usize,
        last_len: usize,
        out: Seq<u8>,
        out_pos: int,
    ) -> bool {
        match code_link {
            Some(d) => {
                &&& d.valid_for(self.table, self.min_size)
                &&& (d.code as int) < self.next_code as int
                &&& if have_last {
                    &&& last_start + last_len <= out_pos
                    &&& last_len as int == self.table.depth_seq()[d.code as int] as int
                    &&& out.subrange(last_start as int, last_start + last_len as int)
                        == self.table.word(self.min_size, d.code as int)
                    &&& self.buffer.pending().len() == 0
                } else {
                    self.last_ok(d)
                }
            },
            None => !have_last && self.buffer.pending().len() == 0,
        }
    }

    /// A fresh decode state for the given bit order and minimum code size.
    /// Tables start empty; the first code (or an implicit reset) populates
    /// them.
    pub fn new(order: BitOrder, min_size: u8) -> (r: DecodeState)
        requires
            2 <= min_size <= 12,
        ensures
            r.wf(),
            !r.spec_has_ended(),
            r.spec_min_size() == min_size,
            r.spec_order() == order,
            !r.spec_is_tiff(),
            !r.spec_yield_on_full(),
            r.spec_table().links().len() == 0,
            (r.spec_last() is None),
            r.spec_pending().len() == 0,
            r.spec_next_code() as int == spec_literal_count(min_size) + 2,
            r.spec_code_size() == min_size + 1,
            r.code_buffer_bits() == 0,
            r.code_buffer_value() == 0,
    {
        proof {
            lemma_literal_count_bounds(min_size);
            assert((1u16 << min_size) as int == spec_literal_count(min_size));
        }
        let clear_code: u16 = 1u16 << min_size;
        DecodeState {
            min_size,
            table: Table::new(),
            buffer: ScratchBuffer::new(),
            last: None,
            clear_code,
            end_code: clear_code + 1,
            next_code: clear_code + 2,
            has_ended: false,
            is_tiff: false,
            implicit_reset: true,
            yield_on_full: false,
            code_buffer: CodeBuffer::new(order, min_size),
        }
    }

    /// Selects the TIFF code-size-growth variant.
    pub fn set_tiff(&mut self, tiff: bool)
        requires
            old(self).wf(),
        ensures
            final(self).wf(),
            final(self).spec_is_tiff() == tiff,
            final(self).spec_has_ended() == old(self).spec_has_ended(),
            final(self).spec_min_size() == old(self).spec_min_size(),
            final(self).spec_order() == old(self).spec_order(),
            final(self).spec_yield_on_full() == old(self).spec_yield_on_full(),
            final(self).spec_table() == old(self).spec_table(),
            final(self).spec_last() == old(self).spec_last(),
            final(self).spec_pending() == old(self).spec_pending(),
            final(self).spec_next_code() == old(self).spec_next_code(),
            final(self).spec_code_size() == old(self).spec_code_size(),
            final(self).code_buffer_bits() == old(self).code_buffer_bits(),
            final(self).code_buffer_value() == old(self).code_buffer_value(),
    {
        self.is_tiff = tiff;
    }

    /// Selects returning to the caller the moment the output is full.
    pub fn set_yield_on_full(&mut self, do_yield: bool)
        requires
            old(self).wf(),
        ensures
            final(self).wf(),
            final(self).spec_yield_on_full() == do_yield,
            final(self).spec_has_ended() == old(self).spec_has_ended(),
            final(self).spec_min_size() == old(self).spec_min_size(),
            final(self).spec_order() == old(self).spec_order(),
            final(self).spec_is_tiff() == old(self).spec_is_tiff(),
            final(self).spec_table() == old(self).spec_table(),
            final(self).spec_last() == old(self).spec_last(),
            final(self).spec_pending() == old(self).spec_pending(),
            final(self).spec_next_code() == old(self).spec_next_code(),
            final(self).spec_code_size() == old(self).spec_code_size(),
            final(self).code_buffer_bits() == old(self).code_buffer_bits(),
            final(self).code_buffer_value() == old(self).code_buffer_value(),
    {
        self.yield_on_full = do_yield;
    }

    /// (Re)initializes the dictionary and the code width for a fresh
    /// sequence, as the clear code at the start of a stream does.
    fn init_tables(&mut self)
        requires
            old(self).wf(),
            (old(self).spec_last() is None),
            old(self).spec_pending().len() == 0,
        ensures
            final(self).wf(),
            final(self).spec_min_size() == old(self).spec_min_size(),
            final(self).spec_is_tiff() == old(self).spec_is_tiff(),
            final(self).spec_yield_on_full() == old(self).spec_yield_on_full(),
            final(self).spec_order() == old(self).spec_order(),
            final(self).spec_has_ended() == old(self).spec_has_ended(),
            final(self).spec_table().links() =~= crate::table::spec_init_links(
                old(self).spec_min_size(),
            ),
            final(self).spec_next_code() as int == spec_literal_count(old(self).spec_min_size())
                + 2,
            final(self).spec_code_size() == old(self).spec_min_size() + 1,
            final(self).spec_last() == old(self).spec_last(),
            final(self).spec_pending() == old(self).spec_pending(),
            final(self).code_buffer_bits() == old(self).code_buffer_bits(),
            final(self).code_buffer_value() == old(self).code_buffer_value(),
    {
        proof {
            lemma_literal_count_bounds(self.min_size);
        }
        self.code_buffer.reset(self.min_size);
        self.next_code = self.clear_code + 2;
        self.table.init(self.min_size);
    }

    /// Discards only the dynamic dictionary entries, as an in-stream clear
    /// code does; the result is exactly the freshly initialized dictionary.
    fn reset_tables(&mut self)
        requires
            old(self).wf(),
            (old(self).spec_last() is None),
            old(self).spec_pending().len() == 0,
            old(self).spec_table().links().len() > 0,
        ensures
            final(self).wf(),
            final(self).spec_min_size() == old(self).spec_min_size(),
            final(self).spec_is_tiff() == old(self).spec_is_tiff(),
            final(self).spec_yield_on_full() == old(self).spec_yield_on_full(),
            final(self).spec_order() == old(self).spec_order(),
            final(self).spec_has_ended() == old(self).spec_has_ended(),
            final(self).spec_table().links() =~= crate::table::spec_init_links(
                old(self).spec_min_size(),
            ),
            final(self).spec_next_code() as int == spec_literal_count(old(self).spec_min_size())
                + 2,
            final(self).spec_code_size() == old(self).spec_min_size() + 1,
            final(self).spec_last() == old(self).spec_last(),
            final(self).spec_pending() == old(self).spec_pending(),
            final(self).code_buffer_bits() == old(self).code_buffer_bits(),
            final(self).code_buffer_value() == old(self).code_buffer_value(),
    {
        proof {
            lemma_literal_count_bounds(self.min_size);
        }
        self.code_buffer.reset(self.min_size);
        self.next_code = self.clear_code + 2;
        self.table.clear(self.min_size);
    }

    /// The buffered bit count of the shift register (for specifications).
    pub closed spec fn code_buffer_bits(self) -> nat {
        self.code_buffer.bit_count()
    }

    /// The buffered bit value of the shift register (for specifications).
    pub closed spec fn code_buffer_value(self) -> nat {
        self.code_buffer.buffered()
    }

    pub fn has_ended(&self) -> (r: bool)
        ensures
            r == self.spec_has_ended(),
    {
        self.has_ended
    }

    /// Forgets a seen end code without touching the dictionary: decoding
    /// continues as if the end marker had not been present.
    pub fn restart(&mut self)
        requires
            old(self).wf(),
        ensures
            final(self).wf(),
            !final(self).spec_has_ended(),
            final(self).spec_min_size() == old(self).spec_min_size(),
            final(self).spec_is_tiff() == old(self).spec_is_tiff(),
            final(self).spec_yield_on_full() == old(self).spec_yield_on_full(),
            final(self).spec_order() == old(self).spec_order(),
            final(self).spec_last() == old(self).spec_last(),
            final(self).spec_pending() == old(self).spec_pending(),
            final(self).spec_table() == old(self).spec_table(),
            final(self).spec_next_code() == old(self).spec_next_code(),
            final(self).spec_code_size() == old(self).spec_code_size(),
            final(self).code_buffer_bits() == old(self).code_buffer_bits(),
            final(self).code_buffer_value() == old(self).code_buffer_value(),
    {
        self.has_ended = false;
    }

    /// Full reinitialization without reallocation: the state afterwards
    /// behaves as a freshly constructed decoder.
    pub fn reset(&mut self)
        requires
            old(self).wf(),
        ensures
            final(self).wf(),
            !final(self).spec_has_ended(),
            final(self).spec_min_size() == old(self).spec_min_size(),
            final(self).spec_is_tiff() == old(self).spec_is_tiff(),
            final(self).spec_yield_on_full() == old(self).spec_yield_on_full(),
            final(self).spec_order() == old(self).spec_order(),
            (final(self).spec_last() is None),
            final(self).spec_pending().len() == 0,
            final(self).spec_table().links() =~= crate::table::spec_init_links(
                old(self).spec_min_size(),
            ),
            final(self).spec_next_code() as int == spec_literal_count(old(self).spec_min_size())
                + 2,
            final(self).spec_code_size() == old(self).spec_min_size() + 1,
            final(self).code_buffer_bits() == 0,
            final(self).code_buffer_value() == 0,
    {
        proof {
            lemma_literal_count_bounds(self.min_size);
        }
        self.table.init(self.min_size);
        self.next_code = self.clear_code + 2;
        self.buffer.reset();
        self.last = None;
        self.has_ended = false;
        let order = self.code_buffer.order();
        self.code_buffer = CodeBuffer::new(order, self.min_size);
    }

    /// Registers the dictionary entry a freshly decoded code creates: the
    /// base's word extended by `cha`, the new word's first byte.  The code
    /// width grows by one bit exactly when `next_code` reaches the largest
    /// value the current width can express (one code earlier under the TIFF
    /// variant).  Once the table is full nothing changes at all: saturation
    /// is not an error, and neither `next_code` nor the code width moves
    /// again.
    #[verifier::rlimit(50)]
    fn register_derivation(&mut self, deriv: &DerivationBase, cha: u8)
        requires
            old(self).wf_core(),
            deriv.valid_for(old(self).spec_table(), old(self).spec_min_size()),
            (deriv.code as int) < old(self).spec_next_code() as int,
        ensures
            final(self).wf_core(),
            final(self).spec_min_size() == old(self).spec_min_size(),
            final(self).spec_is_tiff() == old(self).spec_is_tiff(),
            final(self).spec_yield_on_full() == old(self).spec_yield_on_full(),
            final(self).spec_order() == old(self).spec_order(),
            final(self).spec_has_ended() == old(self).spec_has_ended(),
            final(self).spec_last() == old(self).spec_last(),
            final(self).buffer_unchanged(*old(self)),
            final(self).code_buffer_bits() == old(self).code_buffer_bits(),
            final(self).code_buffer_value() == old(self).code_buffer_value(),
            old(self).spec_table().links().len() >= MAX_ENTRIES as int ==> {
                &&& final(self).spec_table() == old(self).spec_table()
                &&& final(self).spec_next_code() == old(self).spec_next_code()
                &&& final(self).spec_code_size() == old(self).spec_code_size()
            },
            old(self).spec_table().links().len() < MAX_ENTRIES as int ==> {
                &&& final(self).spec_table().links() =~= old(self).spec_table().links().push(
                    crate::table::Link { prev: deriv.code, byte: cha, first: deriv.first },
                )
                &&& final(self).spec_table().depth_seq() =~= old(
                    self,
                ).spec_table().depth_seq().push(
                    (old(self).spec_table().depth_seq()[deriv.code as int] + 1) as u16,
                )
                &&& final(self).spec_next_code() == old(self).spec_next_code() + 1
                &&& final(self).spec_table().word(
                    old(self).spec_min_size(),
                    old(self).spec_table().links().len() as int,
                ) =~= old(self).spec_table().word(old(self).spec_min_size(), deriv.code as int,
                ).push(cha)
                &&& final(self).spec_code_size() == (if spec_bump_boundary(
                    old(self).spec_code_size(),
                    old(self).spec_next_code() as nat,
                    old(self).spec_is_tiff(),
                ) {
                    old(self).spec_code_size() + 1
                } else {
                    old(self).spec_code_size()
                })
            },
            forall|c: int|
                is_word_code(
                    c,
                    spec_literal_count(old(self).spec_min_size()),
                    old(self).spec_table().links().len() as int,
                ) ==> {
                    let t0 = old(self).spec_table();
                    let t1 = final(self).spec_table();
                    let ms = old(self).spec_min_size();
                    &&& t1.word(ms, c) == t0.word(ms, c)
                    &&& t1.depth_seq()[c] == t0.depth_seq()[c]
                    &&& t1.links()[c] == t0.links()[c]
                },
    {
        if !self.table.is_full() {
            proof {
                lemma2_to64();
                if self.spec_code_size() > 3 {
                    vstd::arithmetic::power2::lemma_pow2_strictly_increases(
                        3,
                        self.spec_code_size(),
                    );
                }
            }
            let ghost old_links = self.table.links();
            self.table.derive(deriv, cha, self.min_size);
            let max_code = self.code_buffer.max_code();
            let tiff_off: u16 = if self.is_tiff {
                1
            } else {
                0
            };
            if self.next_code >= max_code - tiff_off && self.code_buffer.code_size()
                < MAX_CODESIZE {
                self.code_buffer.bump_code_size();
            }
            self.next_code = self.next_code + 1;
            proof {
                assert forall|c: int|
                    is_word_code(
                        c,
                        spec_literal_count(self.min_size),
                        old_links.len() as int,
                    ) implies {
                    &&& self.spec_table().word(self.min_size, c) == crate::table::word_of(
                        old_links,
                        spec_literal_count(self.min_size),
                        c,
                    )
                    &&& self.spec_table().links()[c] == old_links[c]
                } by {
                    Table::lemma_word_stable(
                        old_links,
                        self.spec_table().links(),
                        spec_literal_count(self.min_size),
                        c,
                    );
                }
            }
        } else {
            proof {
                assert(*self == *old(self));
            }
        }
    }

    /// Both marks and the contents of the scratch buffer are unchanged.
    pub closed spec fn buffer_unchanged(self, other: DecodeState) -> bool {
        self.buffer == other.buffer
    }


    /// Reads the first code of a new sequence: handles the clear and end
    /// codes, rejects a code with no predecessor, and otherwise seeds the
    /// scratch buffer with the code's reconstruction.  Returns the
    /// derivation base (if a sequence started), the new input position, the
    /// condition so far, and (for the specification) the bytes the step
    /// emitted — which are exactly what is now pending.
    fn start_sequence(&mut self, inp: &[u8]) -> (r: (
        Option<DerivationBase>,
        usize,
        Result<LzwStatus, LzwError>,
        Ghost<Seq<u8>>,
    ))
        requires
            old(self).wf(),
            !old(self).spec_has_ended(),
            (old(self).spec_last() is None),
        ensures
            final(self).wf_core(),
            (final(self).spec_last() is None),
            final(self).spec_min_size() == old(self).spec_min_size(),
            final(self).spec_is_tiff() == old(self).spec_is_tiff(),
            final(self).spec_yield_on_full() == old(self).spec_yield_on_full(),
            final(self).spec_order() == old(self).spec_order(),
            r.1 <= inp@.len(),
            spec_decodes(
                old(self).spec_min_size(),
                old(self).spec_is_tiff(),
                old(self).spec_order(),
                old(self).spec_model(),
                spec_push_bytes(
                    old(self).spec_order(),
                    old(self).code_buffer_value(),
                    old(self).code_buffer_bits(),
                    inp@.take(r.1 as int),
                ),
                (old(self).code_buffer_bits() + 8 * r.1) as nat,
                final(self).loop_model(r.0),
                final(self).code_buffer_value(),
                final(self).code_buffer_bits(),
                r.3@,
                (r.2 is Err),
            ),
            final(self).spec_pending() =~= r.3@,
            (r.0 is None) ==> r.3@ == Seq::<u8>::empty(),
            (r.0 is Some) ==> r.3@.len() >= 1,
            (r.0 is Some) ==> r.2 == Ok::<LzwStatus, LzwError>(LzwStatus::Progress),
            (r.2 == Ok::<LzwStatus, LzwError>(LzwStatus::Done)) == final(self).spec_has_ended(),
            r.2 == Ok::<LzwStatus, LzwError>(LzwStatus::NoProgress) ==> r.1 == inp@.len() && old(
                self,
            ).code_buffer_bits() + 8 * inp@.len() < old(self).spec_code_size(),
            match r.0 {
                Some(dd) => final(self).last_ok(dd),
                None => true,
            },
    {
        let ghost ms = self.min_size;
        let ghost tf0 = self.spec_is_tiff();
        let ghost ord0 = self.spec_order();
        let ghost v0 = self.code_buffer_value();
        let ghost b0 = self.code_buffer_bits();
        let ghost m0 = self.spec_model();
        let ghost mut d_acc: Seq<u8> = Seq::<u8>::empty();
        let ghost mut trace_err: bool = false;
        let mut status: Result<LzwStatus, LzwError> = Ok(LzwStatus::Progress);
        let mut code_link: Option<DerivationBase> = None;
        let (sym, p) = self.code_buffer.next_symbol(inp, 0);
        let in_pos = p;
        let ghost loaded = spec_push_bytes(ord0, v0, b0, inp@.take(p as int));
        let ghost lbits = (b0 + 8 * (p as int)) as nat;
        proof {
            assert(inp@.subrange(0, p as int) =~= inp@.take(p as int));
        }
        match sym {
            None => {
                status = Ok(LzwStatus::NoProgress);
                proof {
                    assert(self.loop_model(code_link) == m0);
                    lemma_decodes_refl(ms, tf0, ord0, m0, loaded, lbits);
                }
            },
            Some(init_code) => {
                let ghost c = init_code as nat;
                proof {
                    assert(c == spec_first_code(ord0, loaded, lbits, m0.width));
                    lemma_decodes_step(ms, tf0, ord0, m0, loaded, lbits);
                }
                if init_code > self.next_code {
                    status = Err(LzwError::InvalidCode);
                    proof {
                        trace_err = true;
                        assert(self.loop_model(code_link) == (EngineModel {
                            last: None,
                            ..m0
                        }));
                    }
                } else if init_code == self.next_code {
                    // The first code of a sequence has no
                    // predecessor to derive from.
                    status = Err(LzwError::InvalidCode);
                    proof {
                        trace_err = true;
                        assert(self.loop_model(code_link) == (EngineModel {
                            last: None,
                            ..m0
                        }));
                    }
                } else if init_code == self.clear_code {
                    self.init_tables();
                    proof {
                        assert(self.spec_table().links() == spec_init_links(ms));
                        assert(self.loop_model(code_link) == spec_fresh_model(
                            ms,
                            m0.ended,
                        ));
                    }
                } else if init_code == self.end_code {
                    self.has_ended = true;
                    status = Ok(LzwStatus::Done);
                    proof {
                        assert(self.loop_model(code_link) == (EngineModel {
                            ended: true,
                            last: None,
                            ..m0
                        }));
                    }
                } else if self.table.is_empty() {
                    if self.implicit_reset {
                        self.init_tables();
                        proof {
                            self.table.lemma_word_shape(ms, init_code as int);
                            assert(self.spec_table().links() == spec_init_links(ms));
                        }
                        let first = self.buffer.fill_reconstruct(
                            &self.table,
                            init_code,
                            self.min_size,
                        );
                        code_link = Some(DerivationBase { code: init_code, first });
                        proof {
                            let (m1, w, e1) = spec_step(ms, tf0, m0, c);
                            d_acc = w;
                            assert(w == word_of(
                                spec_init_links(ms),
                                spec_literal_count(ms),
                                c as int,
                            ));
                            assert(first == w[0]);
                            assert(self.loop_model(code_link) == m1);
                            assert(self.spec_pending() =~= w);
                        }
                    } else {
                        // An explicit clear code is required.
                        status = Err(LzwError::InvalidCode);
                        proof {
                            assert(false);
                        }
                    }
                } else {
                    proof {
                        self.table.lemma_word_shape(ms, init_code as int);
                    }
                    let first = self.buffer.fill_reconstruct(
                        &self.table,
                        init_code,
                        self.min_size,
                    );
                    code_link = Some(DerivationBase { code: init_code, first });
                    proof {
                        let (m1, w, e1) = spec_step(ms, tf0, m0, c);
                        d_acc = w;
                        assert(w == word_of(m0.links, spec_literal_count(ms), c as int));
                        assert(first == w[0]);
                        assert(self.loop_model(code_link) == m1);
                        assert(self.spec_pending() =~= w);
                    }
                }
            },
        }

        (code_link, in_pos, status, Ghost(d_acc))
    }

    /// Decodes as much as possible: consumes a prefix of `inp`, writes a
    /// prefix of `out` (whose length is the available space and never
    /// changes), and reports both counts with the condition the call ended
    /// in.  Once the end code has been seen, calls are no-ops that report
    /// `Done`; `NoProgress` is reported only when nothing at all was
    /// consumed or produced, and only because a whole code could not be had
    /// or there was no room.  Everything the call does is a run of the
    /// decode relation: see `spec_advance_ok`.
    #[verifier::rlimit(100)]
    pub fn advance(&mut self, inp: &[u8], out: &mut Vec<u8>) -> (r: BufferResult)
        requires
            old(self).wf(),
        ensures
            final(self).wf(),
            r.consumed_in <= inp@.len(),
            r.consumed_out <= old(out)@.len(),
            final(out)@.len() == old(out)@.len(),
            forall|j: int|
                r.consumed_out <= j < old(out)@.len() ==> final(out)@[j] == old(out)@[j],
            final(self).spec_min_size() == old(self).spec_min_size(),
            final(self).spec_is_tiff() == old(self).spec_is_tiff(),
            final(self).spec_yield_on_full() == old(self).spec_yield_on_full(),
            final(self).spec_order() == old(self).spec_order(),
            old(self).spec_has_ended() ==> r.consumed_in == 0 && r.consumed_out == 0 && r.status
                == Ok::<LzwStatus, LzwError>(LzwStatus::Done) && *final(self) == *old(self),
            r.status == Ok::<LzwStatus, LzwError>(LzwStatus::NoProgress) ==> r.consumed_in == 0
                && r.consumed_out == 0,
            r.status == Ok::<LzwStatus, LzwError>(LzwStatus::NoProgress) ==> old(out)@.len() == 0
                || old(self).code_buffer_bits() + 8 * inp@.len() < old(self).spec_code_size(),
            r.status == Ok::<LzwStatus, LzwError>(LzwStatus::Done)
                ==> final(self).spec_has_ended(),
            !old(self).spec_has_ended() && old(self).spec_pending().len() > 0 ==> ({
                let n = if old(self).spec_pending().len() as int <= old(out)@.len() as int {
                    old(self).spec_pending().len() as int
                } else {
                    old(out)@.len() as int
                };
                &&& r.consumed_out >= n
                &&& final(out)@.subrange(0, n) =~= old(self).spec_pending().take(n)
            }),
            !old(self).spec_has_ended() ==> spec_advance_ok(
                *old(self),
                inp@,
                r.consumed_in as int,
                *final(self),
                final(out)@.take(r.consumed_out as int),
                (r.status is Err),
            ),
    {
        if self.has_ended {
            return BufferResult {
                consumed_in: 0,
                consumed_out: 0,
                status: Ok(LzwStatus::Done),
            };
        }
        let ghost ms = self.min_size;
        let ghost tf0 = self.spec_is_tiff();
        let ghost ord0 = self.spec_order();
        let ghost v0 = self.code_buffer_value();
        let ghost b0 = self.code_buffer_bits();
        let ghost m0 = self.spec_model();
        let ghost pending0 = self.spec_pending();
        let ghost mut d_acc: Seq<u8> = Seq::<u8>::empty();
        let ghost mut trace_err: bool = false;
        let olen: usize = out.len();
        let mut in_pos: usize = 0;
        let mut out_pos: usize = 0;
        let mut status: Result<LzwStatus, LzwError> = Ok(LzwStatus::Progress);
        let mut code_link: Option<DerivationBase> = None;

        // Step 1: without a pending derivation base, read the first code of
        // a new sequence; clear and end codes are handled specially, and a
        // valid word code seeds the scratch buffer with its reconstruction.
        let taken = self.last;
        self.last = None;
        match taken {
            None => {
                let stepped = self.start_sequence(inp);
                code_link = stepped.0;
                in_pos = stepped.1;
                status = stepped.2;
                proof {
                    d_acc = stepped.3@;
                    trace_err = (status is Err);
                }
            },
            Some(tup) => {
                code_link = Some(tup);
                proof {
                    assert(inp@.take(0) =~= Seq::<u8>::empty());
                    assert(self.loop_model(code_link) == m0);
                    lemma_decodes_refl(ms, tf0, ord0, m0, v0, b0);
                }
            },
        }
        proof {
            assert(call_trace(
                ms,
                tf0,
                ord0,
                m0,
                v0,
                b0,
                inp@,
                in_pos as int,
                self.loop_model(code_link),
                self.code_buffer_value(),
                self.code_buffer_bits(),
                d_acc,
                trace_err,
            ));
        }

        // Step 2: drain the scratch buffer into the output — fully if it
        // fits, partially otherwise.
        let ghost p_pre = self.spec_pending();
        proof {
            assert(pending0 + d_acc =~= p_pre) by {
                if m0.last is None {
                    assert(pending0.len() == 0);
                }
            }
        }
        let mut have_yet_to_decode_data = false;
        if code_link.is_some() {
            let remain = self.buffer.pending_len();
            if remain > olen {
                if olen == 0 {
                    status = Ok(LzwStatus::NoProgress);
                } else {
                    self.buffer.drain_into(out, 0, olen);
                    out_pos = olen;
                }
            } else if remain == 0 {
                have_yet_to_decode_data = true;
            } else {
                self.buffer.drain_into(out, 0, remain);
                out_pos = remain;
            }
        }

        let ghost out_after_drain = out@;
        let ghost drained = out_pos as int;
        proof {
            if !old(self).spec_has_ended() && old(self).spec_pending().len() > 0 {
                let n = if old(self).spec_pending().len() as int <= old(out)@.len() as int {
                    old(self).spec_pending().len() as int
                } else {
                    old(out)@.len() as int
                };
                assert(drained == n);
                assert(out_after_drain.subrange(0, n) =~= old(self).spec_pending().take(n));
            }
            // Whatever was drained is the pending prefix, so the books
            // balance: old pending plus everything emitted equals what the
            // output holds plus what is still pending.
            assert(out@.take(out_pos as int) =~= p_pre.take(out_pos as int));
            assert(self.spec_pending() =~= p_pre.skip(out_pos as int));
            assert(p_pre.take(out_pos as int) + p_pre.skip(out_pos as int) =~= p_pre);
            assert(pending0 + d_acc == out@.take(out_pos as int) + self.spec_pending());
            assert(call_trace(
                ms,
                tf0,
                ord0,
                m0,
                v0,
                b0,
                inp@,
                in_pos as int,
                self.loop_model(code_link),
                self.code_buffer_value(),
                self.code_buffer_bits(),
                d_acc,
                trace_err,
            ));
        }

        // Step 3: the decode loop proper, entered only with an empty
        // scratch buffer.  Each round peeks a batch of codes, decodes the
        // burst-eligible prefix straight into the output, and runs the last
        // code through the single-code path.
        let mut have_last = false;
        let mut last_start: usize = 0;
        let mut last_len: usize = 0;
        if self.buffer.pending_len() == 0 && code_link.is_some() {
            let mut codes = new_burst_vec();
            loop
                invariant_except_break
                    self.spec_pending().len() == 0,
                    !trace_err,
                    !(status is Err),
                    !self.spec_has_ended(),
                invariant
                    self.wf_core(),
                    (self.spec_last() is None),
                    self.spec_min_size() == old(self).spec_min_size(),
                    self.spec_is_tiff() == old(self).spec_is_tiff(),
                    self.spec_yield_on_full() == old(self).spec_yield_on_full(),
                    self.spec_order() == old(self).spec_order(),
                    ms == old(self).spec_min_size(),
                    olen as int == out@.len(),
                    out@.len() == old(out)@.len(),
                    out_pos <= olen,
                    in_pos <= inp@.len(),
                    codes@.len() == BURST,
                    forall|j: int| out_pos <= j < olen ==> out@[j] == old(out)@[j],
                    drained <= out_pos as int,
                    forall|j: int| 0 <= j < drained ==> out@[j] == out_after_drain[j],
                    self.link_ok(code_link, have_last, last_start, last_len, out@, out_pos as int),
                    status == Ok::<LzwStatus, LzwError>(LzwStatus::Done) ==> self.spec_has_ended(),
                    have_yet_to_decode_data ==> self.code_buffer_bits() == old(
                        self,
                    ).code_buffer_bits() + 8 * in_pos && self.spec_code_size() == old(
                        self,
                    ).spec_code_size(),
                    status == Ok::<LzwStatus, LzwError>(LzwStatus::NoProgress) ==> olen == 0 || old(
                        self,
                    ).code_buffer_bits() + 8 * inp@.len() < old(self).spec_code_size() || in_pos
                        > 0 || out_pos > 0,
                    m0 == old(self).spec_model(),
                    v0 == old(self).code_buffer_value(),
                    b0 == old(self).code_buffer_bits(),
                    tf0 == old(self).spec_is_tiff(),
                    ord0 == old(self).spec_order(),
                    pending0 == old(self).spec_pending(),
                    trace_err == (status is Err),
                    call_trace(
                        ms,
                        tf0,
                        ord0,
                        m0,
                        v0,
                        b0,
                        inp@,
                        in_pos as int,
                        self.loop_model(code_link),
                        self.code_buffer_value(),
                        self.code_buffer_bits(),
                        d_acc,
                        trace_err,
                    ),
                    pending0 + d_acc == out@.take(out_pos as int) + self.spec_pending(),
                decreases 8 * (inp@.len() - in_pos) + self.code_buffer_bits(),
            {
                // With yield-on-full, a full output returns to the caller
                // at once instead of fetching further symbols.
                if self.yield_on_full && out_pos == olen {
                    if have_yet_to_decode_data {
                        status = Ok(LzwStatus::NoProgress);
                    }
                    break;
                }
                let deriv_opt = code_link;
                code_link = None;
                let mut deriv = match deriv_opt {
                    Some(d) => d,
                    None => {
                        // The tables were just reset; the next code starts a
                        // fresh sequence in the next call to the entry point.
                        break;
                    },
                };

                // Ensure the register is full: this also guarantees at
                // least one code is available if any input is left.
                let ghost pre_in = in_pos as int;
                let ghost v_pre = self.code_buffer_value();
                let ghost b_pre = self.code_buffer_bits();
                in_pos = self.code_buffer.refill_bits(inp, in_pos);
                proof {
                    let bytes = inp@.subrange(pre_in, in_pos as int);
                    assert(inp@.take(pre_in) + bytes =~= inp@.take(in_pos as int));
                    lemma_push_bytes_append(ord0, v0, b0, inp@.take(pre_in), bytes);
                    lemma_decodes_push_bytes(
                        ms,
                        tf0,
                        ord0,
                        m0,
                        spec_push_bytes(ord0, v0, b0, inp@.take(pre_in)),
                        (b0 + 8 * pre_in) as nat,
                        self.loop_model(Some(deriv)),
                        v_pre,
                        b_pre,
                        d_acc,
                        trace_err,
                        bytes,
                    );
                }
                let cnt = self.code_buffer.peek_bits(&mut codes);
                if cnt == 0 {
                    if have_yet_to_decode_data {
                        status = Ok(LzwStatus::NoProgress);
                        proof {
                            // Too few bits for one code, and the refill left
                            // none behind: the input as a whole is short.
                            if in_pos == 0 {
                                assert(in_pos as int == inp@.len() || self.code_buffer_bits()
                                    > 56);
                            }
                        }
                    }
                    code_link = Some(deriv);
                    break;
                }
                let ghost cb_after_peek = self.code_buffer;
                let ghost l_pk = self.code_buffer_value();
                let ghost b_pk = self.code_buffer_bits();
                let ghost csn = self.spec_code_size();

                let max_code = self.code_buffer.max_code();
                let tiff_off: u16 = if self.is_tiff {
                    1
                } else {
                    0
                };
                proof {
                    lemma2_to64();
                    if self.spec_code_size() > 3 {
                        vstd::arithmetic::power2::lemma_pow2_strictly_increases(
                            3,
                            self.spec_code_size(),
                        );
                    }
                }
                let left_before_size_switch: u16 = if max_code - tiff_off >= self.next_code {
                    (max_code - tiff_off) - self.next_code
                } else {
                    0
                };
                let next0 = self.next_code;

                // The burst: a prefix of the peeked codes that are all
                // independent — none special, none new, none crossing the
                // code-size switch, and each word fitting the output space
                // that is left.  They decode straight into the output.
                let mut j: usize = 0;
                loop
                    invariant
                        self.wf_core(),
                        (self.spec_last() is None),
                        self.spec_pending().len() == 0,
                        self.spec_min_size() == old(self).spec_min_size(),
                        self.spec_is_tiff() == old(self).spec_is_tiff(),
                        self.spec_yield_on_full() == old(self).spec_yield_on_full(),
                        self.spec_order() == old(self).spec_order(),
                        ms == old(self).spec_min_size(),
                        self.code_buffer == cb_after_peek,
                        next0 as int <= self.spec_next_code() as int,
                        olen as int == out@.len(),
                        out@.len() == old(out)@.len(),
                        out_pos <= olen,
                        in_pos <= inp@.len(),
                        codes@.len() == BURST,
                        0 < cnt <= BURST,
                        j < cnt,
                        forall|jj: int| out_pos <= jj < olen ==> out@[jj] == old(out)@[jj],
                        drained <= out_pos as int,
                        forall|jj: int| 0 <= jj < drained ==> out@[jj] == out_after_drain[jj],
                        status == Ok::<LzwStatus, LzwError>(LzwStatus::NoProgress) ==> olen == 0
                            || old(self).code_buffer_bits() + 8 * inp@.len() < old(
                            self,
                        ).spec_code_size() || in_pos > 0 || out_pos > 0,
                        self.link_ok(
                            Some(deriv),
                            have_last,
                            last_start,
                            last_len,
                            out@,
                            out_pos as int,
                        ),
                        status == Ok::<LzwStatus, LzwError>(LzwStatus::Done)
                            ==> self.spec_has_ended(),
                        m0 == old(self).spec_model(),
                        v0 == old(self).code_buffer_value(),
                        b0 == old(self).code_buffer_bits(),
                        tf0 == old(self).spec_is_tiff(),
                        ord0 == old(self).spec_order(),
                        pending0 == old(self).spec_pending(),
                        !trace_err,
                        !(status is Err),
                        !self.spec_has_ended(),
                        l_pk == cb_after_peek.buffered(),
                        b_pk == cb_after_peek.bit_count(),
                        csn == cb_after_peek.spec_code_size(),
                        csn == self.spec_code_size(),
                        (cnt as int) * (csn as int) <= b_pk as int,
                        forall|i: int|
                            0 <= i < cnt ==> (#[trigger] codes@[i]) as nat == spec_code_at(
                                ord0,
                                l_pk,
                                b_pk,
                                csn,
                                i as nat,
                            ),
                        self.spec_next_code() as int <= next0 + j,
                        left_before_size_switch > 0 ==> next0 as int + left_before_size_switch
                            as int + (if tf0 {
                            1int
                        } else {
                            0int
                        }) == cb_after_peek.spec_mask() as int,
                        call_trace(
                            ms,
                            tf0,
                            ord0,
                            m0,
                            v0,
                            b0,
                            inp@,
                            in_pos as int,
                            self.loop_model(Some(deriv)),
                            spec_rest_k(ord0, l_pk, b_pk, csn, j as nat),
                            (b_pk - (j as int) * (csn as int)) as nat,
                            d_acc,
                            false,
                        ),
                        pending0 + d_acc == out@.take(out_pos as int) + self.spec_pending(),
                    decreases cnt - j,
                {
                    if j + 1 > left_before_size_switch as usize {
                        break;
                    }
                    let c = codes[j];
                    if c == self.clear_code || c == self.end_code || c >= next0 {
                        break;
                    }
                    proof {
                        self.table.lemma_depth_bound(ms, c as int);
                        self.table.lemma_word_shape(ms, c as int);
                    }
                    let len = self.table.depth_of(c) as usize;
                    if olen - out_pos < len {
                        break;
                    }
                    if self.yield_on_full && olen - out_pos == len {
                        break;
                    }
                    if j == cnt - 1 {
                        // The last peeked code always goes through the
                        // single-code path below.
                        break;
                    }
                    let ghost m_pre = self.loop_model(Some(deriv));
                    let ghost l_j = spec_rest_k(ord0, l_pk, b_pk, csn, j as nat);
                    let ghost b_j = (b_pk - (j as int) * (csn as int)) as nat;
                    let ghost pre_out = out@;
                    let ghost d_old = d_acc;
                    proof {
                        assert(((j + 1) as int) * (csn as int) <= (cnt as int) * (csn as int))
                            by (nonlinear_arith)
                            requires
                                j + 1 <= cnt,
                                csn >= 0,
                        ;
                        assert(((j + 1) as int) * (csn as int) == (j as int) * (csn as int) + csn
                            as int) by (nonlinear_arith);
                        lemma_code_at_shift(ord0, l_pk, b_pk, csn, j as nat, 0);
                        lemma_rest_k_snoc(ord0, l_pk, b_pk, csn, j as nat);
                        assert((c as nat) == spec_first_code(ord0, l_j, b_j, csn));
                        lemma_decodes_step(ms, tf0, ord0, m_pre, l_j, b_j);
                    }
                    let first = self.table.reconstruct(c, self.min_size, out, out_pos, len);
                    let ghost pre_table = self.table;
                    if !self.table.is_full() {
                        self.table.derive(&deriv, first, self.min_size);
                        self.next_code = self.next_code + 1;
                        proof {
                            Table::lemma_word_stable(
                                pre_table.links(),
                                self.table.links(),
                                spec_literal_count(ms),
                                c as int,
                            );
                            assert(self.table.links()[c as int] == pre_table.links()[c as int]);
                        }
                    }
                    deriv = DerivationBase { code: c, first };
                    have_last = true;
                    last_start = out_pos;
                    last_len = len;
                    out_pos = out_pos + len;
                    j = j + 1;
                    proof {
                        let lits = spec_literal_count(ms);
                        let cn = c as nat;
                        let (m1, w, e1) = spec_step(ms, tf0, m_pre, cn);
                        assert(cn != lits && cn != lits + 1 && cn < m_pre.next_code);
                        assert(w == word_of(m_pre.links, lits, cn as int));
                        assert(!e1 && !m1.ended);
                        if m_pre.links.len() < MAX_ENTRIES as nat {
                            // The burst cap keeps every fast derivation well
                            // below the code-size switch.
                            assert(!spec_bump_boundary(csn, m_pre.next_code, tf0)) by {
                                assert(m_pre.next_code + (if tf0 {
                                    1int
                                } else {
                                    0int
                                }) + 1 <= cb_after_peek.spec_mask() as int);
                                assert(cb_after_peek.spec_mask() as nat == (pow2(csn) - 1) as nat);
                                lemma2_to64();
                            }
                        }
                        assert(self.loop_model(Some(deriv)) == m1);
                        lemma_decodes_trans(
                            ms,
                            tf0,
                            ord0,
                            m0,
                            spec_push_bytes(ord0, v0, b0, inp@.take(in_pos as int)),
                            (b0 + 8 * in_pos) as nat,
                            m_pre,
                            l_j,
                            b_j,
                            m1,
                            spec_rest(ord0, l_j, b_j, csn),
                            (b_j - csn) as nat,
                            d_old,
                            w,
                            false,
                        );
                        d_acc = d_old + w;
                        // The fresh word sits right at the old write position.
                        assert(out@.take(out_pos as int) =~= pre_out.take((out_pos - len) as int)
                            + w) by {
                            assert forall|q: int| 0 <= q < out_pos as int implies out@[q] == (
                            pre_out.take((out_pos - len) as int) + w)[q] by {
                                if q >= out_pos - len {
                                    assert(out@[q] == out@.subrange(
                                        (out_pos - len) as int,
                                        out_pos as int,
                                    )[q - (out_pos - len)]);
                                }
                            }
                        }
                        assert(pending0 + d_old =~= pre_out.take((out_pos - len) as int)) by {
                            assert(pre_out.take((out_pos - len) as int) + Seq::<u8>::empty()
                                =~= pre_out.take((out_pos - len) as int));
                        }
                        assert(pending0 + d_acc =~= out@.take(out_pos as int)) by {
                            assert(pending0 + (d_old + w) =~= (pending0 + d_old) + w);
                        }
                        assert(out@.take(out_pos as int) + self.spec_pending() =~= out@.take(
                            out_pos as int,
                        ));
                    }
                }

                // Commit the burst: its codes leave the register, and the
                // code after it is decoded through the general path.
                let burst_size = j + 1;
                proof {
                    let ghost csn = self.spec_code_size();
                    assert((j + 1) * csn <= cnt * csn && (j + 1) * csn >= 3) by (nonlinear_arith)
                        requires
                            j + 1 <= cnt,
                            csn >= 3,
                    ;
                }
                self.code_buffer.consume_bits(burst_size as u8);
                have_yet_to_decode_data = false;
                let new_code = codes[j];
                let ghost m_slow = self.loop_model(Some(deriv));
                let ghost l_sl = spec_rest_k(ord0, l_pk, b_pk, csn, j as nat);
                let ghost b_sl = (b_pk - (j as int) * (csn as int)) as nat;
                let ghost cn = new_code as nat;
                let ghost d_old = d_acc;
                let ghost w_sl = spec_step(ms, tf0, m_slow, cn).1;
                proof {
                    assert(((j + 1) as int) * (csn as int) <= (cnt as int) * (csn as int))
                        by (nonlinear_arith)
                        requires
                            j + 1 <= cnt,
                            csn >= 0,
                    ;
                    assert(((j + 1) as int) * (csn as int) == (j as int) * (csn as int) + csn
                        as int) by (nonlinear_arith);
                    lemma_code_at_shift(ord0, l_pk, b_pk, csn, j as nat, 0);
                    lemma_rest_k_snoc(ord0, l_pk, b_pk, csn, j as nat);
                    assert(cn == spec_first_code(ord0, l_sl, b_sl, csn));
                    lemma_decodes_step(ms, tf0, ord0, m_slow, l_sl, b_sl);
                    lemma_decodes_trans(
                        ms,
                        tf0,
                        ord0,
                        m0,
                        spec_push_bytes(ord0, v0, b0, inp@.take(in_pos as int)),
                        (b0 + 8 * in_pos) as nat,
                        m_slow,
                        l_sl,
                        b_sl,
                        spec_step(ms, tf0, m_slow, cn).0,
                        spec_rest(ord0, l_sl, b_sl, csn),
                        (b_sl - csn) as nat,
                        d_old,
                        w_sl,
                        spec_step(ms, tf0, m_slow, cn).2,
                    );
                    d_acc = d_old + w_sl;
                }

                if new_code == self.clear_code {
                    self.reset_tables();
                    have_last = false;
                    proof {
                        assert(cn == spec_literal_count(ms));
                        assert(self.spec_table().links() == spec_init_links(ms));
                        assert(self.loop_model(code_link) == spec_fresh_model(ms, m_slow.ended));
                        assert(w_sl =~= Seq::<u8>::empty());
                        assert(d_old + w_sl =~= d_old);
                    }
                    // Restarts in the next call to the entry point.
                    break;
                }
                if new_code == self.end_code {
                    self.has_ended = true;
                    status = Ok(LzwStatus::Done);
                    have_last = false;
                    proof {
                        assert(cn == spec_literal_count(ms) + 1);
                        assert(self.loop_model(code_link) == (EngineModel {
                            ended: true,
                            last: None,
                            ..m_slow
                        }));
                        assert(w_sl =~= Seq::<u8>::empty());
                        assert(d_old + w_sl =~= d_old);
                    }
                    break;
                }
                if new_code > self.next_code {
                    status = Err(LzwError::InvalidCode);
                    have_last = false;
                    proof {
                        trace_err = true;
                        assert(spec_step(ms, tf0, m_slow, cn).2);
                        assert(self.loop_model(code_link) == (EngineModel {
                            last: None,
                            ..m_slow
                        }));
                        assert(w_sl =~= Seq::<u8>::empty());
                        assert(d_old + w_sl =~= d_old);
                    }
                    break;
                }
                let have_next_code = new_code == self.next_code;
                if have_next_code && self.table.is_full() {
                    // The code refers to the entry that would come next, but
                    // the saturated table can no longer define it.
                    status = Err(LzwError::InvalidCode);
                    have_last = false;
                    proof {
                        trace_err = true;
                        assert(spec_step(ms, tf0, m_slow, cn).2);
                        assert(self.loop_model(code_link) == (EngineModel {
                            last: None,
                            ..m_slow
                        }));
                        assert(w_sl =~= Seq::<u8>::empty());
                        assert(d_old + w_sl =~= d_old);
                    }
                    break;
                }
                let ghost t0 = self.table;
                let ghost w0 = t0.word(ms, deriv.code as int);
                proof {
                    self.table.lemma_depth_bound(ms, deriv.code as int);
                    self.table.lemma_word_shape(ms, deriv.code as int);
                    if !have_next_code {
                        self.table.lemma_depth_bound(ms, new_code as int);
                        self.table.lemma_word_shape(ms, new_code as int);
                    }
                }
                let required_len: u16 = if have_next_code {
                    self.table.depth_of(deriv.code) + 1
                } else {
                    self.table.depth_of(new_code)
                };

                // The cScSc case reads the previous word; make sure it is in
                // the scratch buffer if it currently lives in the output.
                if have_next_code && have_last {
                    self.buffer.store_delivered(out, last_start, last_len);
                    proof {
                        assert(self.buffer.stored() =~= w0);
                    }
                    have_last = false;
                }

                let cha: u8;
                let ghost out_pre_sl = out@;
                let ghost pos_pre_sl = out_pos as int;
                let is_in_buffer = (required_len as usize) > olen - out_pos;
                if is_in_buffer {
                    if have_next_code {
                        cha = self.buffer.fill_cscsc();
                        proof {
                            assert(cha == w0[0]);
                            assert(self.buffer.stored() =~= w0.push(cha));
                        }
                    } else {
                        have_last = false;
                        cha = self.buffer.fill_reconstruct(&self.table, new_code, self.min_size);
                    }
                } else {
                    let start = out_pos;
                    if have_next_code {
                        if have_last {
                            let c0 = out[last_start];
                            proof {
                                assert(c0 == w0[0]);
                            }
                            copy_within(out, last_start, out_pos, last_len);
                            let ghost mid = out@;
                            proof {
                                assert(mid.subrange(start as int, (start + last_len) as int)
                                    =~= w0);
                            }
                            out[out_pos + last_len] = c0;
                            cha = c0;
                            proof {
                                assert(out@.subrange(
                                    start as int,
                                    start + required_len as int,
                                ) =~= w0.push(cha)) by {
                                    assert forall|jj: int|
                                        0 <= jj < required_len as int implies out@[start + jj]
                                        == w0.push(cha)[jj] by {
                                        if jj < last_len as int {
                                            assert(out@[start + jj] == mid[start + jj]);
                                            assert(mid[start + jj] == mid.subrange(
                                                start as int,
                                                (start + last_len) as int,
                                            )[jj]);
                                        }
                                    }
                                }
                            }
                        } else {
                            let n = self.buffer.stored_len();
                            proof {
                                assert(self.buffer.stored().take(n as int)
                                    =~= self.buffer.stored());
                            }
                            self.buffer.copy_stored_to(out, out_pos, n);
                            let ghost mid = out@;
                            proof {
                                assert(mid.subrange(start as int, (start + n) as int) =~= w0);
                            }
                            let c0 = self.buffer.first_byte();
                            proof {
                                assert(c0 == w0[0]);
                            }
                            out[out_pos + n] = c0;
                            cha = c0;
                            proof {
                                assert(out@.subrange(
                                    start as int,
                                    start + required_len as int,
                                ) =~= w0.push(cha)) by {
                                    assert forall|jj: int|
                                        0 <= jj < required_len as int implies out@[start + jj]
                                        == w0.push(cha)[jj] by {
                                        if jj < n as int {
                                            assert(out@[start + jj] == mid[start + jj]);
                                            assert(mid[start + jj] == mid.subrange(
                                                start as int,
                                                (start + n) as int,
                                            )[jj]);
                                        }
                                    }
                                }
                            }
                        }
                    } else {
                        cha = self.table.reconstruct(
                            new_code,
                            self.min_size,
                            out,
                            out_pos,
                            required_len as usize,
                        );
                    }
                    out_pos = out_pos + required_len as usize;
                    have_last = true;
                    last_start = start;
                    last_len = required_len as usize;
                }

                // Each newly read code defines one new entry, derived from
                // the preceding word, while the table has room.
                let ghost pre_out = out@;
                self.register_derivation(&deriv, cha);
                code_link = Some(DerivationBase { code: new_code, first: cha });
                proof {
                    let lits = spec_literal_count(ms);
                    let t1 = self.table;
                    assert(out@ == pre_out);
                    if have_next_code {
                        assert(new_code as int == t0.links().len());
                        assert(t1.links()[new_code as int] == (crate::table::Link {
                            prev: deriv.code,
                            byte: cha,
                            first: deriv.first,
                        }));
                        assert(cha == deriv.first);
                        assert(t1.word(ms, new_code as int) =~= w0.push(cha));
                        assert(t1.depth_seq()[new_code as int] == required_len);
                        assert(is_word_code(new_code as int, lits, t1.links().len() as int));
                    } else {
                        assert(is_word_code(new_code as int, lits, t0.links().len() as int));
                        assert(t1.word(ms, new_code as int) == t0.word(ms, new_code as int));
                        assert(t1.depth_seq()[new_code as int] == t0.depth_seq()[new_code as int]);
                        assert(t1.links()[new_code as int] == t0.links()[new_code as int]);
                    }
                    assert(self.link_ok(
                        code_link,
                        have_last,
                        last_start,
                        last_len,
                        out@,
                        out_pos as int,
                    ));
                    // The step taken is exactly the specification's step:
                    // same emitted word, same dictionary growth, same width.
                    assert(m_slow.links == t0.links());
                    if have_next_code {
                        assert(w_sl == word_of(m_slow.links, lits, deriv.code as int).push(
                            deriv.first,
                        ));
                        assert(w_sl =~= w0.push(cha));
                    } else {
                        assert(w_sl == t0.word(ms, new_code as int));
                    }
                    assert(cha == w_sl[0]) by {
                        if have_next_code {
                            assert(w_sl[0] == w0[0]);
                        }
                    }
                    assert(spec_step(ms, tf0, m_slow, cn).0 == self.loop_model(code_link));
                    if is_in_buffer {
                        assert(self.spec_pending() =~= w_sl);
                        assert(pending0 + d_old =~= out@.take(out_pos as int)) by {
                            assert(out@.take(out_pos as int) + Seq::<u8>::empty() =~= out@.take(
                                out_pos as int,
                            ));
                        }
                        assert(pending0 + d_acc =~= out@.take(out_pos as int) + w_sl) by {
                            assert(pending0 + (d_old + w_sl) =~= (pending0 + d_old) + w_sl);
                        }
                    } else {
                        assert(out@.take(out_pos as int) =~= out_pre_sl.take(pos_pre_sl)
                            + w_sl) by {
                            assert(out@.subrange(pos_pre_sl, out_pos as int) =~= w_sl);
                            assert forall|q: int| 0 <= q < out_pos as int implies out@[q] == (
                            out_pre_sl.take(pos_pre_sl) + w_sl)[q] by {
                                if q >= pos_pre_sl {
                                    assert(out@[q] == out@.subrange(pos_pre_sl, out_pos as int)[q
                                        - pos_pre_sl]);
                                }
                            }
                        }
                        assert(pending0 + d_old =~= out_pre_sl.take(pos_pre_sl)) by {
                            assert(out_pre_sl.take(pos_pre_sl) + Seq::<u8>::empty()
                                =~= out_pre_sl.take(pos_pre_sl));
                        }
                        assert(pending0 + d_acc =~= out@.take(out_pos as int)) by {
                            assert(pending0 + (d_old + w_sl) =~= (pending0 + d_old) + w_sl);
                        }
                        assert(out@.take(out_pos as int) + self.spec_pending() =~= out@.take(
                            out_pos as int,
                        ));
                    }
                }

                // No more progress can be made in this round: the word went
                // to the scratch buffer, or the output is full.
                if is_in_buffer || out_pos == olen {
                    break;
                }
            }
        }

        // Persist the last decoded word: the next call needs it if its
        // first code turns out to be the one just being defined.
        if have_last {
            proof {
                let d = code_link->Some_0;
                self.table.lemma_depth_bound(ms, d.code as int);
                assert(self.spec_pending() =~= Seq::<u8>::empty());
            }
            self.buffer.store_delivered(out, last_start, last_len);
            proof {
                assert(self.spec_pending() =~= Seq::<u8>::empty());
            }
        }

        // Reading input or writing output is progress, even when a step in
        // the middle found nothing to do.
        if in_pos > 0 || out_pos > 0 {
            match status {
                Ok(LzwStatus::NoProgress) => {
                    status = Ok(LzwStatus::Progress);
                },
                _ => {},
            }
        }

        self.last = code_link;
        proof {
            assert(spec_decodes(
                old(self).spec_min_size(),
                old(self).spec_is_tiff(),
                old(self).spec_order(),
                old(self).spec_model(),
                spec_push_bytes(
                    old(self).spec_order(),
                    old(self).code_buffer_value(),
                    old(self).code_buffer_bits(),
                    inp@.take(in_pos as int),
                ),
                (old(self).code_buffer_bits() + 8 * in_pos) as nat,
                self.spec_model(),
                self.code_buffer_value(),
                self.code_buffer_bits(),
                d_acc,
                (status is Err),
            ));
            assert(old(self).spec_pending() + d_acc == out@.take(out_pos as int)
                + self.spec_pending());
            lemma_advance_ok_intro(
                *old(self),
                inp@,
                in_pos as int,
                *self,
                out@.take(out_pos as int),
                (status is Err),
                d_acc,
            );
            if !old(self).spec_has_ended() && old(self).spec_pending().len() > 0 {
                let n = if old(self).spec_pending().len() as int <= old(out)@.len() as int {
                    old(self).spec_pending().len() as int
                } else {
                    old(out)@.len() as int
                };
                assert(out@.subrange(0, n) =~= out_after_drain.subrange(0, n));
            }
        }
        BufferResult { consumed_in: in_pos, consumed_out: out_pos, status }
    }
}

/// LAW (code-size growth boundary): with a minimum code size of 7 — the
/// literal alphabet 0..127, clear code 128, end code 129 — the code width
/// grows from 10 to 11 bits exactly when the entry counter reaches 1024:
/// the boundary test fires at the entry whose registration makes
/// `next_code` 1024 (tested with the counter still at 1023).  Under the
/// TIFF variant it fires one code earlier.  `register_derivation` grows the
/// width precisely when `spec_bump_boundary` holds of the counter before
/// the new entry is counted.
pub proof fn lemma_code_size_growth_boundary(next_code: nat)
    ensures
        spec_bump_boundary(10, next_code, false) <==> next_code + 1 >= 1024,
        spec_bump_boundary(10, next_code, true) <==> next_code + 1 >= 1023,
{
    lemma2_to64();
}

/// LAW (saturation ends growth): at the maximum code width the boundary
/// never fires again — however far the entry counter gets, a saturated
/// dictionary sees no further code-size growth.  `register_derivation`
/// moreover leaves a full table, its counter and the width untouched.
pub proof fn lemma_no_growth_at_max_width(next_code: nat, tiff: bool)
    ensures
        !spec_bump_boundary(MAX_CODESIZE as nat, next_code, tiff),
{
}

/// LAW (mid-stream clear): the clear code steps every model to the freshly
/// initialized dictionary — literal alphabet, `next_code` back at its
/// start, the code width back at `min_size + 1` — and decoding continues
/// from there.
pub proof fn lemma_step_clear(min_size: u8, tiff: bool, m: EngineModel)
    ensures
        spec_step(min_size, tiff, m, spec_literal_count(min_size) as nat) == (
            spec_fresh_model(min_size, m.ended),
            Seq::<u8>::empty(),
            false,
        ),
{
}

/// LAW (dictionary saturation): once the table is full, an ordinary code
/// still decodes — its word is emitted without error — but nothing is
/// appended any more: entries, `next_code` and the code width all stay put.
pub proof fn lemma_step_saturated(min_size: u8, tiff: bool, m: EngineModel, code: nat)
    requires
        m.links.len() >= MAX_ENTRIES as nat,
        (m.last is Some),
        code != spec_literal_count(min_size),
        code != spec_literal_count(min_size) + 1,
        code < m.next_code,
    ensures
        ({
            let (m1, w, err) = spec_step(min_size, tiff, m, code);
            &&& !err
            &&& w == word_of(m.links, spec_literal_count(min_size), code as int)
            &&& m1.links == m.links
            &&& m1.next_code == m.next_code
            &&& m1.width == m.width
        }),
{
}

/// LAW (when decoding fails): a step errs exactly on a code past the entry
/// counter, or equal to it where the cScSc reading is impossible — as the
/// first code of a sequence, or with the dictionary already full.  The
/// clear and end codes never err.
pub proof fn lemma_step_invalid_code(min_size: u8, tiff: bool, m: EngineModel, code: nat)
    requires
        code != spec_literal_count(min_size),
        code != spec_literal_count(min_size) + 1,
    ensures
        spec_step(min_size, tiff, m, code).2 <==> (code > m.next_code || (code == m.next_code
            && ((m.last is None) || m.links.len() >= MAX_ENTRIES as nat))),
{
}

/// Describes the static parameters for creating a decoder: bit order,
/// minimum code size, the TIFF growth variant and the yield-on-full-output
/// policy.
#[derive(Clone, Copy, Debug)]
pub struct Configuration {
    order: BitOrder,
    size: u8,
    tiff: bool,
    yield_on_full: bool,
}

impl Configuration {
    pub closed spec fn spec_order(self) -> BitOrder {
        self.order
    }

    pub closed spec fn spec_size(self) -> u8 {
        self.size
    }

    pub closed spec fn spec_tiff(self) -> bool {
        self.tiff
    }

    pub closed spec fn spec_yield_on_full(self) -> bool {
        self.yield_on_full
    }

    pub open spec fn wf(self) -> bool {
        2 <= self.spec_size() <= 12
    }

    /// A configuration for the given bit order and minimum code size.
    pub fn new(order: BitOrder, size: u8) -> (r: Configuration)
        requires
            2 <= size <= 12,
        ensures
            r.wf(),
            r.spec_order() == order,
            r.spec_size() == size,
            !r.spec_tiff(),
            !r.spec_yield_on_full(),
    {
        Configuration { order, size, tiff: false, yield_on_full: false }
    }

    /// A configuration for a TIFF-compatible decoder, which switches the
    /// code width one symbol sooner.
    pub fn with_tiff_size_switch(order: BitOrder, size: u8) -> (r: Configuration)
        requires
            2 <= size <= 12,
        ensures
            r.wf(),
            r.spec_order() == order,
            r.spec_size() == size,
            r.spec_tiff(),
            !r.spec_yield_on_full(),
    {
        Configuration { order, size, tiff: true, yield_on_full: false }
    }

    /// Yield to the caller the moment the output buffer is exactly full,
    /// instead of interpreting (and possibly rejecting) the following bits:
    /// for containers that specify the decoded length out of band.
    pub fn with_yield_on_full_buffer(self, do_yield: bool) -> (r: Configuration)
        ensures
            r.spec_order() == self.spec_order(),
            r.spec_size() == self.spec_size(),
            r.spec_tiff() == self.spec_tiff(),
            r.spec_yield_on_full() == do_yield,
            r.wf() == self.wf(),
    {
        Configuration { yield_on_full: do_yield, ..self }
    }

    /// A decoder with this configuration.
    pub fn build(self) -> (r: Decoder)
        requires
            self.wf(),
        ensures
            r.wf(),
            !r.spec_has_ended(),
            r.spec_min_size() == self.spec_size(),
            r.spec_order() == self.spec_order(),
            r.spec_is_tiff() == self.spec_tiff(),
            r.spec_yield_on_full() == self.spec_yield_on_full(),
            r.spec_pending().len() == 0,
            r.spec_state().spec_table().links().len() == 0,
            (r.spec_state().spec_last() is None),
            r.spec_state().code_buffer_bits() == 0,
    {
        let mut state = DecodeState::new(self.order, self.size);
        state.set_tiff(self.tiff);
        state.set_yield_on_full(self.yield_on_full);
        Decoder { state }
    }
}

/// The decoder facade: selects bit order, TIFF mode and yield mode at
/// construction and owns one `DecodeState`.
pub struct Decoder {
    state: DecodeState,
}

impl Decoder {
    pub closed spec fn spec_state(self) -> DecodeState {
        self.state
    }

    pub open spec fn wf(self) -> bool {
        self.spec_state().wf()
    }

    pub open spec fn spec_has_ended(self) -> bool {
        self.spec_state().spec_has_ended()
    }

    pub open spec fn spec_min_size(self) -> u8 {
        self.spec_state().spec_min_size()
    }

    pub open spec fn spec_order(self) -> BitOrder {
        self.spec_state().spec_order()
    }

    pub open spec fn spec_is_tiff(self) -> bool {
        self.spec_state().spec_is_tiff()
    }

    pub open spec fn spec_yield_on_full(self) -> bool {
        self.spec_state().spec_yield_on_full()
    }

    /// The pending decoded bytes an earlier call could not deliver.
    pub open spec fn spec_pending(self) -> Seq<u8> {
        self.spec_state().spec_pending()
    }

    /// A decoder with the specified bit order and minimum code size.  The
    /// code-width growth follows the classic LZW rule; GIF image data needs
    /// the LSB order.
    pub fn new(order: BitOrder, size: u8) -> (r: Decoder)
        requires
            2 <= size <= 12,
        ensures
            r.wf(),
            !r.spec_has_ended(),
            r.spec_min_size() == size,
            r.spec_order() == order,
            !r.spec_is_tiff(),
            !r.spec_yield_on_full(),
            r.spec_pending().len() == 0,
            r.spec_state().spec_table().links().len() == 0,
            (r.spec_state().spec_last() is None),
            r.spec_state().code_buffer_bits() == 0,
    {
        Configuration::new(order, size).build()
    }

    /// A TIFF-compatible decoder: it switches the code width one symbol
    /// sooner than the original algorithm.
    pub fn with_tiff_size_switch(order: BitOrder, size: u8) -> (r: Decoder)
        requires
            2 <= size <= 12,
        ensures
            r.wf(),
            !r.spec_has_ended(),
            r.spec_min_size() == size,
            r.spec_order() == order,
            r.spec_is_tiff(),
            !r.spec_yield_on_full(),
            r.spec_pending().len() == 0,
            r.spec_state().spec_table().links().len() == 0,
            (r.spec_state().spec_last() is None),
            r.spec_state().code_buffer_bits() == 0,
    {
        Configuration::with_tiff_size_switch(order, size).build()
    }

    /// Decodes some bytes from `inp` into a prefix of `out` (whose length
    /// is the available space and never changes).  A prefix of the input is
    /// consumed; the return value reports both counts and the condition the
    /// call ended in.  After the end code, calls are no-ops reporting
    /// `Done`; `NoProgress` is reported only when nothing was consumed or
    /// produced, and only because a whole code could not be had or there
    /// was no room; bytes a previous call left pending are delivered before
    /// anything else, as far as they fit; and everything the call does is a
    /// run of the decode relation: see `spec_advance_ok`.
    pub fn decode_bytes(&mut self, inp: &[u8], out: &mut Vec<u8>) -> (r: BufferResult)
        requires
            old(self).wf(),
        ensures
            final(self).wf(),
            r.consumed_in <= inp@.len(),
            r.consumed_out <= old(out)@.len(),
            final(out)@.len() == old(out)@.len(),
            forall|j: int|
                r.consumed_out <= j < old(out)@.len() ==> final(out)@[j] == old(out)@[j],
            final(self).spec_min_size() == old(self).spec_min_size(),
            final(self).spec_is_tiff() == old(self).spec_is_tiff(),
            final(self).spec_yield_on_full() == old(self).spec_yield_on_full(),
            final(self).spec_order() == old(self).spec_order(),
            old(self).spec_has_ended() ==> r.consumed_in == 0 && r.consumed_out == 0 && r.status
                == Ok::<LzwStatus, LzwError>(LzwStatus::Done) && *final(self) == *old(self),
            r.status == Ok::<LzwStatus, LzwError>(LzwStatus::NoProgress) ==> r.consumed_in == 0
                && r.consumed_out == 0,
            r.status == Ok::<LzwStatus, LzwError>(LzwStatus::NoProgress) ==> old(out)@.len() == 0
                || old(self).spec_state().code_buffer_bits() + 8 * inp@.len() < old(
                self,
            ).spec_state().spec_code_size(),
            r.status == Ok::<LzwStatus, LzwError>(LzwStatus::Done)
                ==> final(self).spec_has_ended(),
            !old(self).spec_has_ended() && old(self).spec_pending().len() > 0 ==> ({
                let n = if old(self).spec_pending().len() as int <= old(out)@.len() as int {
                    old(self).spec_pending().len() as int
                } else {
                    old(out)@.len() as int
                };
                &&& r.consumed_out >= n
                &&& final(out)@.subrange(0, n) =~= old(self).spec_pending().take(n)
            }),
            !old(self).spec_has_ended() ==> spec_advance_ok(
                old(self).spec_state(),
                inp@,
                r.consumed_in as int,
                final(self).spec_state(),
                final(out)@.take(r.consumed_out as int),
                (r.status is Err),
            ),
    {
        self.state.advance(inp, out)
    }

    /// Has the end code been reached?  Beyond it no more output is
    /// produced.
    pub fn has_ended(&self) -> (r: bool)
        ensures
            r == self.spec_has_ended(),
    {
        self.state.has_ended()
    }

    /// Ignores a seen end code and continues, without resetting any tables:
    /// decoding proceeds as if the end marker had not been present.
    pub fn restart(&mut self)
        requires
            old(self).wf(),
        ensures
            final(self).wf(),
            !final(self).spec_has_ended(),
            final(self).spec_min_size() == old(self).spec_min_size(),
            final(self).spec_is_tiff() == old(self).spec_is_tiff(),
            final(self).spec_yield_on_full() == old(self).spec_yield_on_full(),
            final(self).spec_order() == old(self).spec_order(),
            final(self).spec_state().spec_table() == old(self).spec_state().spec_table(),
            final(self).spec_pending() == old(self).spec_pending(),
            final(self).spec_state().spec_last() == old(self).spec_state().spec_last(),
            final(self).spec_state().spec_next_code() == old(self).spec_state().spec_next_code(),
            final(self).spec_state().spec_code_size() == old(self).spec_state().spec_code_size(),
            final(self).spec_state().code_buffer_bits() == old(
                self,
            ).spec_state().code_buffer_bits(),
            final(self).spec_state().code_buffer_value() == old(
                self,
            ).spec_state().code_buffer_value(),
    {
        self.state.restart();
    }

    /// Resets all internal state, as if freshly constructed, without
    /// reallocating.
    pub fn reset(&mut self)
        requires
            old(self).wf(),
        ensures
            final(self).wf(),
            !final(self).spec_has_ended(),
            final(self).spec_min_size() == old(self).spec_min_size(),
            final(self).spec_is_tiff() == old(self).spec_is_tiff(),
            final(self).spec_yield_on_full() == old(self).spec_yield_on_full(),
            final(self).spec_order() == old(self).spec_order(),
            final(self).spec_pending().len() == 0,
            (final(self).spec_state().spec_last() is None),
            final(self).spec_state().spec_table().links() =~= crate::table::spec_init_links(
                old(self).spec_min_size(),
            ),
            final(self).spec_state().spec_next_code() as int == spec_literal_count(
                old(self).spec_min_size(),
            ) + 2,
            final(self).spec_state().spec_code_size() == old(self).spec_min_size() + 1,
            final(self).spec_state().code_buffer_bits() == 0,
            final(self).spec_state().code_buffer_value() == 0,
    {
        self.state.reset();
    }
}

/// Copies `out[src .. src + n]` to `out[dst .. dst + n]`; the source region
/// lies wholly before the destination.
fn copy_within(out: &mut Vec<u8>, src: usize, dst: usize, n: usize)
    requires
        src + n <= dst,
        dst + n <= old(out).len(),
    ensures
        final(out)@.len() == old(out)@.len(),
        final(out)@.subrange(dst as int, (dst + n) as int) =~= old(out)@.subrange(
            src as int,
            (src + n) as int,
        ),
        forall|j: int| 0 <= j < dst ==> final(out)@[j] == old(out)@[j],
        forall|j: int| dst + n <= j < old(out)@.len() ==> final(out)@[j] == old(out)@[j],
{
    let olen: usize = out.len();
    let mut k: usize = 0;
    while k < n
        invariant
            k <= n,
            src + n <= dst,
            dst + n <= olen,
            olen as int == out@.len(),
            out@.len() == old(out)@.len(),
            forall|j: int| 0 <= j < dst ==> out@[j] == old(out)@[j],
            forall|j: int| dst + k <= j < old(out)@.len() ==> out@[j] == old(out)@[j],
            forall|j: int| dst <= j < dst + k ==> out@[j] == old(out)@[j - dst + src],
        decreases n - k,
    {
        let b = out[src + k];
        out[dst + k] = b;
        k = k + 1;
    }
}

} // verus!
