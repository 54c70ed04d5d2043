//! End-to-end tests of the LZW decoder: the reference stream, chunked
//! decoding, the cScSc case, mid-stream clears, code-size growth at the
//! boundary, dictionary saturation, yield-on-full, and error reporting.

use pokemon_icat::decode::Decoder;
use pokemon_icat::BitOrder;
use pokemon_icat::LzwError;
use pokemon_icat::LzwStatus;

/// Decodes `data` completely with large buffers, requiring an end marker or
/// clean exhaustion; panics on an error status.
fn decode_all(decoder: &mut Decoder, data: &[u8]) -> Vec<u8> {
    let mut result = Vec::new();
    let mut pos = 0usize;
    loop {
        let mut out = vec![0u8; 4096];
        let r = decoder.decode_bytes(&data[pos..], &mut out);
        let status = r.status.expect("unexpected decode error");
        assert!(r.consumed_in <= data.len() - pos);
        assert!(r.consumed_out <= out.len());
        pos += r.consumed_in;
        result.extend_from_slice(&out[..r.consumed_out]);
        match status {
            LzwStatus::Done => break,
            LzwStatus::NoProgress => break,
            LzwStatus::Progress => {}
        }
    }
    result
}

/// Decodes with one-byte input chunks and one-byte output space per call.
fn decode_tiny_chunks(decoder: &mut Decoder, data: &[u8]) -> Vec<u8> {
    let mut result = Vec::new();
    let mut pos = 0usize;
    let mut stalled = 0u32;
    loop {
        let end = (pos + 1).min(data.len());
        let mut out = vec![0u8; 1];
        let r = decoder.decode_bytes(&data[pos..end], &mut out);
        let status = r.status.expect("unexpected decode error");
        pos += r.consumed_in;
        result.extend_from_slice(&out[..r.consumed_out]);
        match status {
            LzwStatus::Done => break,
            LzwStatus::NoProgress => {
                stalled += 1;
                if pos == data.len() || stalled > 3 {
                    break;
                }
            }
            LzwStatus::Progress => {
                stalled = 0;
            }
        }
    }
    result
}

/// Packs codes into bytes, mirroring the decoder's code-width schedule, so
/// a chosen code sequence arrives exactly as written.
struct CodeWriter {
    order: BitOrder,
    tiff: bool,
    min_size: u8,
    code_size: u8,
    next_code: u16,
    clear_code: u16,
    end_code: u16,
    in_sequence: bool,
    bit_buffer: u64,
    bits: u8,
    bytes: Vec<u8>,
}

impl CodeWriter {
    fn new(order: BitOrder, min_size: u8, tiff: bool) -> CodeWriter {
        CodeWriter {
            order,
            tiff,
            min_size,
            code_size: min_size + 1,
            next_code: (1 << min_size) + 2,
            clear_code: 1 << min_size,
            end_code: (1 << min_size) + 1,
            in_sequence: false,
            bit_buffer: 0,
            bits: 0,
            bytes: Vec::new(),
        }
    }

    fn push(&mut self, code: u16) {
        assert!((code as u64) < (1u64 << self.code_size));
        match self.order {
            BitOrder::Lsb => {
                self.bit_buffer |= (code as u64) << self.bits;
            }
            BitOrder::Msb => {
                self.bit_buffer |= (code as u64) << (64 - self.bits - self.code_size);
            }
        }
        self.bits += self.code_size;
        while self.bits >= 8 {
            match self.order {
                BitOrder::Lsb => {
                    self.bytes.push((self.bit_buffer & 0xFF) as u8);
                    self.bit_buffer >>= 8;
                }
                BitOrder::Msb => {
                    self.bytes.push((self.bit_buffer >> 56) as u8);
                    self.bit_buffer <<= 8;
                }
            }
            self.bits -= 8;
        }
        // Mirror the decoder's table bookkeeping.
        if code == self.clear_code {
            self.code_size = self.min_size + 1;
            self.next_code = (1 << self.min_size) + 2;
            self.in_sequence = false;
        } else if code == self.end_code {
            self.in_sequence = false;
        } else if !self.in_sequence {
            // The first code of a sequence defines no entry.
            self.in_sequence = true;
        } else if self.next_code < 4096 {
            let max_code = (1u16 << self.code_size) - 1;
            let tiff_off = if self.tiff { 1 } else { 0 };
            if self.next_code >= max_code - tiff_off && self.code_size < 12 {
                self.code_size += 1;
            }
            self.next_code += 1;
        }
    }

    fn finish(mut self) -> Vec<u8> {
        if self.bits > 0 {
            match self.order {
                BitOrder::Lsb => self.bytes.push((self.bit_buffer & 0xFF) as u8),
                BitOrder::Msb => self.bytes.push((self.bit_buffer >> 56) as u8),
            }
        }
        self.bytes
    }
}

#[test]
fn reference_example_msb9() {
    // MSB order, minimum code size 9: the canonical "Hello, world" stream.
    let data: &[u8] = &[
        0x80, 0x04, 0x81, 0x94, 0x6C, 0x1B, 0x06, 0xF0, 0xB0, 0x20, 0x1D, 0xC6, 0xF1, 0xC8,
        0x6C, 0x19, 0x20, 0x10,
    ];
    let mut decoder = Decoder::new(BitOrder::Msb, 9);
    let decoded = decode_all(&mut decoder, data);
    assert_eq!(&decoded, b"Hello, world");
    assert!(decoder.has_ended());
}

#[test]
fn chunk_invariance_one_byte_buffers() {
    let data: &[u8] = &[
        0x80, 0x04, 0x81, 0x94, 0x6C, 0x1B, 0x06, 0xF0, 0xB0, 0x20, 0x1D, 0xC6, 0xF1, 0xC8,
        0x6C, 0x19, 0x20, 0x10,
    ];
    let mut whole = Decoder::new(BitOrder::Msb, 9);
    let expected = decode_all(&mut whole, data);
    let mut tiny = Decoder::new(BitOrder::Msb, 9);
    let chunked = decode_tiny_chunks(&mut tiny, data);
    assert_eq!(chunked, expected);
    assert_eq!(&chunked, b"Hello, world");
}

#[test]
fn yield_on_full_example() {
    // Input [0x00, 0x01, 0x02, 0xFF], LSB order, minimum code size 7,
    // yield-on-full, and an output buffer of exactly 3 bytes: the call
    // fills the buffer and returns at once without error.
    let data: &[u8] = &[0x00, 0x01, 0x02, 0xFF];
    let mut decoder = pokemon_icat::decode::Configuration::new(BitOrder::Lsb, 7)
        .with_yield_on_full_buffer(true)
        .build();
    let mut out = vec![0u8; 3];
    let r = decoder.decode_bytes(data, &mut out);
    assert_eq!(r.status.expect("no error expected"), LzwStatus::Progress);
    assert_eq!(r.consumed_out, 3);
    assert_eq!(&out[..], &[0x00, 0x01, 0x02]);
}

#[test]
fn cscsc_case_lsb7() {
    // clear, 'b', 'a', the entry being defined (cScSc), end: "baaa".
    let data: &[u8] = &[0x80, 0x62, 0x61, 0x83, 0x81];
    let mut decoder = Decoder::new(BitOrder::Lsb, 7);
    let decoded = decode_all(&mut decoder, data);
    assert_eq!(&decoded, b"baaa");
    assert!(decoder.has_ended());
}

#[test]
fn implicit_reset_allows_missing_clear() {
    // A stream may start with a literal: the tables initialize implicitly.
    let data: &[u8] = &[0x62, 0x61, 0x81];
    let mut decoder = Decoder::new(BitOrder::Lsb, 7);
    let decoded = decode_all(&mut decoder, data);
    assert_eq!(&decoded, b"ba");
}

#[test]
fn mid_stream_clear_resets_dictionary() {
    // After the in-stream clear code, code 130 means the entry built from
    // the fresh dictionary, not the one from before the clear.
    let data: &[u8] = &[0x80, 0x61, 0x62, 0x82, 0x80, 0x61, 0x61, 0x82, 0x81];
    let mut decoder = Decoder::new(BitOrder::Lsb, 7);
    let decoded = decode_all(&mut decoder, data);
    assert_eq!(&decoded, b"ababaaaa");
}

#[test]
fn invalid_code_is_reported() {
    // Code 200 exceeds every defined entry right after the first literal.
    let data: &[u8] = &[0x80, 0x62, 0xC8];
    let mut decoder = Decoder::new(BitOrder::Lsb, 7);
    let mut pos = 0usize;
    loop {
        let mut out = vec![0u8; 64];
        let r = decoder.decode_bytes(&data[pos..], &mut out);
        match r.status {
            Err(e) => {
                assert_eq!(e, LzwError::InvalidCode);
                break;
            }
            Ok(LzwStatus::Progress) => {
                pos += r.consumed_in;
            }
            Ok(other) => panic!("expected an invalid-code error, got {:?}", other),
        }
    }
}

#[test]
fn done_is_sticky_until_restart() {
    let data: &[u8] = &[0x80, 0x62, 0x81];
    let mut decoder = Decoder::new(BitOrder::Lsb, 7);
    let decoded = decode_all(&mut decoder, data);
    assert_eq!(&decoded, b"b");
    assert!(decoder.has_ended());
    // Further calls are no-ops reporting Done.
    let mut out = vec![0u8; 8];
    let r = decoder.decode_bytes(&[0x62], &mut out);
    assert_eq!(r.status.unwrap(), LzwStatus::Done);
    assert_eq!(r.consumed_in, 0);
    assert_eq!(r.consumed_out, 0);
    // restart clears only the ended flag.
    decoder.restart();
    assert!(!decoder.has_ended());
}

#[test]
fn reset_allows_full_reuse() {
    let data: &[u8] = &[0x80, 0x62, 0x61, 0x83, 0x81];
    let mut decoder = Decoder::new(BitOrder::Lsb, 7);
    let first = decode_all(&mut decoder, data);
    decoder.reset();
    let second = decode_all(&mut decoder, data);
    assert_eq!(first, second);
    assert_eq!(&first, b"baaa");
}

#[test]
fn no_progress_on_empty_input() {
    let mut decoder = Decoder::new(BitOrder::Lsb, 7);
    let mut out = vec![0u8; 16];
    let r = decoder.decode_bytes(&[], &mut out);
    assert_eq!(r.status.unwrap(), LzwStatus::NoProgress);
    assert_eq!(r.consumed_in, 0);
    assert_eq!(r.consumed_out, 0);
}

/// Drives a long all-'a' stream: every code after the first derives one
/// entry, marching `next_code` across every code-size boundary.
fn long_literal_run(order: BitOrder, tiff: bool, count: usize) -> (Vec<u8>, Vec<u8>) {
    let mut w = CodeWriter::new(order, 7, tiff);
    w.push(128); // clear
    let mut expected = Vec::new();
    for _ in 0..count {
        w.push(97);
        expected.push(b'a');
    }
    w.push(129); // end
    (w.finish(), expected)
}

#[test]
fn code_size_growth_across_boundaries_gif() {
    // 1200 codes push next_code from 130 past 1024: the width grows from
    // 8 through 11 bits; a width mismatch anywhere would corrupt the tail.
    let (data, expected) = long_literal_run(BitOrder::Lsb, false, 1200);
    let mut decoder = Decoder::new(BitOrder::Lsb, 7);
    let decoded = decode_all(&mut decoder, &data);
    assert_eq!(decoded, expected);
    assert!(decoder.has_ended());
}

#[test]
fn code_size_growth_across_boundaries_tiff() {
    // Under the TIFF variant every width switch comes one code earlier.
    let (data, expected) = long_literal_run(BitOrder::Msb, true, 1200);
    let mut decoder = Decoder::with_tiff_size_switch(BitOrder::Msb, 7);
    let decoded = decode_all(&mut decoder, &data);
    assert_eq!(decoded, expected);
    assert!(decoder.has_ended());
}

#[test]
fn dictionary_saturation_keeps_decoding() {
    // 3966 derivations fill the table to 4096 entries; afterwards a long
    // tail of codes decodes against the frozen dictionary without error.
    let (data, expected) = long_literal_run(BitOrder::Lsb, false, 3966 + 500);
    let mut decoder = Decoder::new(BitOrder::Lsb, 7);
    let decoded = decode_all(&mut decoder, &data);
    assert_eq!(decoded, expected);
    assert!(decoder.has_ended());
}

#[test]
fn saturated_dictionary_codes_still_resolve() {
    // Saturate, then reference an early dynamic entry ("aa", code 130).
    let mut w = CodeWriter::new(BitOrder::Lsb, 7, false);
    w.push(128);
    let mut expected = Vec::new();
    for _ in 0..4000 {
        w.push(97);
        expected.push(b'a');
    }
    w.push(130);
    expected.extend_from_slice(b"aa");
    w.push(129);
    let data = w.finish();
    let mut decoder = Decoder::new(BitOrder::Lsb, 7);
    let decoded = decode_all(&mut decoder, &data);
    assert_eq!(decoded, expected);
}

#[test]
fn same_codes_decode_in_either_order() {
    // The same code sequence, packed per order, decodes identically; with
    // 9-bit codes the two packings differ byte for byte.
    let codes: &[u16] = &[256, 97, 98, 258, 257];
    let mut wl = CodeWriter::new(BitOrder::Lsb, 8, false);
    let mut wm = CodeWriter::new(BitOrder::Msb, 8, false);
    for &c in codes {
        wl.push(c);
        wm.push(c);
    }
    let (dl, dm) = (wl.finish(), wm.finish());
    assert_ne!(dl, dm);
    let mut dec_l = Decoder::new(BitOrder::Lsb, 8);
    let mut dec_m = Decoder::new(BitOrder::Msb, 8);
    assert_eq!(decode_all(&mut dec_l, &dl), b"abab");
    assert_eq!(decode_all(&mut dec_m, &dm), b"abab");
}

#[test]
fn smallest_code_size() {
    // min_size 2: the alphabet is 0..3, clear is 4, end is 5, and codes
    // start 3 bits wide; the first derivation already widens them to 4.
    let mut w = CodeWriter::new(BitOrder::Lsb, 2, false);
    for &c in &[4u16, 0, 1, 2, 5] {
        w.push(c);
    }
    let data = w.finish();
    let mut decoder = Decoder::new(BitOrder::Lsb, 2);
    let decoded = decode_all(&mut decoder, &data);
    assert_eq!(&decoded, &[0u8, 1, 2]);
    assert!(decoder.has_ended());
}

#[test]
fn largest_code_size_decodes_literals() {
    // min_size 12 is degenerate: the alphabet alone fills the dictionary,
    // so nothing is ever derived, and literals decode at 13 bits.
    let mut w = CodeWriter::new(BitOrder::Msb, 12, false);
    for &c in &[4096u16, 65, 66, 67, 4097] {
        w.push(c);
    }
    let data = w.finish();
    let mut decoder = Decoder::new(BitOrder::Msb, 12);
    let decoded = decode_all(&mut decoder, &data);
    assert_eq!(&decoded, b"ABC");
}

#[test]
fn round_trip_of_encoded_text() {
    // A conforming encoder's output for repetitive text: built here by the
    // width-faithful writer emitting the greedy LZW parse of "abababab".
    // codes: a, b, 130("ab"), 132("aba"+?)... emit the greedy parse:
    // "a","b","ab","ab" + end -> wait, greedy: a, b, ab, ab ... use the
    // simple parse [97, 98, 130, 130].
    let mut w = CodeWriter::new(BitOrder::Lsb, 7, false);
    for &c in &[128u16, 97, 98, 130, 130, 129] {
        w.push(c);
    }
    let data = w.finish();
    let mut decoder = Decoder::new(BitOrder::Lsb, 7);
    let decoded = decode_all(&mut decoder, &data);
    assert_eq!(&decoded, b"ababab");
}
