use draco_oxide_decoder::entropy::{decode_symbols, start_symbol_decoder, AnySymbolDecoder};
use draco_oxide_decoder::rans::{rans_symbol_table, RabsDecoder, RansDecoder, RansSymbolDecoder};
use draco_oxide_decoder::reader::{Reader, RevReader};

// Encoders for building test streams. They write the formats the decoders
// read: a rANS state kept in [4 * 2^precision, 1024 * 2^precision), bytes
// renormalized out low byte first, and the final state (less the base) in a
// 1-4 byte tail whose last byte carries the size tag in its top two bits.

const METHOD_LENGTH_CODED: u8 = 0;
const METHOD_DIRECT_CODED: u8 = 1;

fn write_leb128(buf: &mut Vec<u8>, mut v: u64) {
    loop {
        let byte = (v & 0x7F) as u8;
        v >>= 7;
        if v == 0 {
            buf.push(byte);
            return;
        }
        buf.push(byte | 0x80);
    }
}

fn flush_state(buf: &mut Vec<u8>, x: u64, base: u64) {
    let v = x - base;
    if v < (1 << 6) {
        buf.push(v as u8);
    } else if v < (1 << 14) {
        buf.push((v & 0xFF) as u8);
        buf.push(((v >> 8) as u8) | 0x40);
    } else if v < (1 << 22) {
        buf.push((v & 0xFF) as u8);
        buf.push(((v >> 8) & 0xFF) as u8);
        buf.push(((v >> 16) as u8) | 0x80);
    } else {
        buf.push((v & 0xFF) as u8);
        buf.push(((v >> 8) & 0xFF) as u8);
        buf.push(((v >> 16) & 0xFF) as u8);
        buf.push(((v >> 24) as u8) | 0xC0);
    }
}

/// Scales a histogram to a distribution summing to `2^precision`, keeping
/// every occurring symbol at least one slot.
fn normalize(counts: &[usize], precision: u32) -> Vec<usize> {
    let m = 1usize << precision;
    let total: usize = counts.iter().sum();
    let mut freq: Vec<usize> = counts
        .iter()
        .map(|&c| if c == 0 { 0 } else { std::cmp::max(1, c * m / total) })
        .collect();
    let sum: usize = freq.iter().sum();
    let largest = (0..freq.len()).max_by_key(|&i| freq[i]).unwrap();
    freq[largest] = freq[largest] + m - sum;
    freq
}

/// The rANS payload of `symbols` (decoded first to last) under `freq`.
fn rans_payload(freq: &[usize], precision: u32, symbols: &[usize]) -> Vec<u8> {
    let m = 1u64 << precision;
    let base = 4 * m;
    let mut cum = vec![0u64; freq.len()];
    for i in 1..freq.len() {
        cum[i] = cum[i - 1] + freq[i - 1] as u64;
    }
    let mut out = Vec::new();
    let mut x = base;
    for &s in symbols.iter().rev() {
        let f = freq[s] as u64;
        while x >= 1024 * f {
            out.push((x & 0xFF) as u8);
            x >>= 8;
        }
        x = (x / f) * m + x % f + cum[s];
    }
    flush_state(&mut out, x, base);
    out
}

fn write_freq_table(buf: &mut Vec<u8>, freq: &[usize]) {
    for &f in freq {
        if f < (1 << 6) {
            buf.push((f << 2) as u8);
        } else if f < (1 << 14) {
            buf.push((((f & 0x3F) << 2) | 1) as u8);
            buf.push((f >> 6) as u8);
        } else {
            buf.push((((f & 0x3F) << 2) | 2) as u8);
            buf.push(((f >> 6) & 0xFF) as u8);
            buf.push((f >> 14) as u8);
        }
    }
}

/// A rANS symbol stream: alphabet size, frequency table, payload length and
/// payload.
fn symbol_stream(buf: &mut Vec<u8>, counts: &[usize], precision: u32, symbols: &[usize]) {
    let freq = normalize(counts, precision);
    let payload = rans_payload(&freq, precision, symbols);
    write_leb128(buf, freq.len() as u64);
    write_freq_table(buf, &freq);
    write_leb128(buf, payload.len() as u64);
    buf.extend_from_slice(&payload);
}

fn histogram(symbols: &[usize]) -> Vec<usize> {
    let max = *symbols.iter().max().unwrap();
    let mut freq = vec![0usize; max + 1];
    for &s in symbols {
        freq[s] += 1;
    }
    freq
}

/// A LengthCoded stream: the method byte, the rANS-coded per-group bit
/// widths, then the values as LSB-first bit fields of that width.
fn tagged_stream(values: &[u32], num_components: usize) -> Vec<u8> {
    let widths: Vec<usize> = values
        .chunks(num_components)
        .map(|group| {
            let max = group.iter().copied().max().unwrap_or(0);
            std::cmp::max(32 - max.leading_zeros(), 1) as usize
        })
        .collect();
    let mut buf = vec![METHOD_LENGTH_CODED];
    let mut counts = vec![0usize; 33];
    for &w in &widths {
        counts[w] += 1;
    }
    symbol_stream(&mut buf, &counts, 12, &widths);
    let mut bits: Vec<bool> = Vec::new();
    for (group, &w) in values.chunks(num_components).zip(&widths) {
        for &v in group {
            for b in 0..w {
                bits.push((v >> b) & 1 == 1);
            }
        }
    }
    for chunk in bits.chunks(8) {
        let mut byte = 0u8;
        for (i, &b) in chunk.iter().enumerate() {
            byte |= (b as u8) << i;
        }
        buf.push(byte);
    }
    buf
}

#[test]
fn decode_symbols_direct_round_trip() {
    let symbols: Vec<u64> = vec![0, 1, 2, 1, 0, 3, 3, 2, 1, 0, 0, 1, 2, 3, 0, 2, 1, 3];
    let as_usize: Vec<usize> = symbols.iter().map(|&s| s as usize).collect();
    // DirectCoded framing: method byte, bit-length byte (8 maps to
    // precision 12), then the symbol stream.
    let mut buf = vec![METHOD_DIRECT_CODED, 8];
    symbol_stream(&mut buf, &histogram(&as_usize), 12, &as_usize);
    // A trailing sentinel confirms `decode_symbols` consumes exactly the payload.
    buf.push(0xAB);

    let mut reader = Reader::new(&buf);
    let decoded = decode_symbols(&mut reader, symbols.len(), 1).unwrap();
    assert_eq!(decoded, symbols);
    assert_eq!(reader.read_u8().unwrap(), 0xAB);
}

#[test]
fn decode_symbols_tagged_round_trip() {
    // Groups of three whose bit widths differ, so a wrong width desynchronizes
    // the value field rather than merely corrupting one symbol.
    let values: Vec<u32> = vec![1, 0, 1, 500, 12, 3, 7, 7, 6, 0, 0, 0, 131071, 2, 40];
    let mut buf = tagged_stream(&values, 3);
    buf.push(0xAB);

    let mut reader = Reader::new(&buf);
    let decoded = decode_symbols(&mut reader, values.len() / 3, 3).unwrap();
    assert_eq!(decoded, values.iter().map(|&v| v as u64).collect::<Vec<_>>());
    assert_eq!(reader.read_u8().unwrap(), 0xAB);
}

#[test]
fn tagged_decoder_pops_in_stream_order() {
    // The lazy consumer must see exactly what the batch decoder returns.
    let values: Vec<u32> = (0..64).map(|i| (i * 37) % 1024).collect();
    let buf = tagged_stream(&values, 2);

    let mut reader = Reader::new(&buf);
    let batch = decode_symbols(&mut reader, values.len() / 2, 2).unwrap();

    let mut reader = Reader::new(&buf);
    let mut decoder = match start_symbol_decoder(&mut reader, values.len(), 2).unwrap() {
        AnySymbolDecoder::Tagged(d) => d,
        AnySymbolDecoder::Direct(_) => panic!("stream is LengthCoded"),
    };
    let popped: Vec<u64> = (0..values.len()).map(|_| decoder.decode() as u64).collect();
    assert_eq!(popped, batch);
}

#[test]
fn rans_decoder_matches_rans_coder() {
    // A distribution that already sums to 2^12; both lookup strategies and
    // both refill strategies must decode identically.
    let freq = vec![1000usize, 2000, 1096];
    assert_eq!(freq.iter().sum::<usize>(), 1 << 12);
    let symbols = vec![0usize, 1, 1, 2, 0, 1, 2, 2, 1, 0, 2, 1, 0, 0, 1];
    let buffer = rans_payload(&freq, 12, &symbols);

    for use_lut in [true, false] {
        for refill_branchless in [true, false] {
            let rans_symbols = rans_symbol_table(&freq, 12).unwrap();
            let rev = RevReader::new(&buffer);
            let mut dec = RansDecoder::new(rev, rans_symbols, use_lut, refill_branchless, 12).unwrap();
            let decoded: Vec<usize> = (0..symbols.len()).map(|_| dec.read()).collect();
            assert_eq!(decoded, symbols);
        }
    }
}

fn symbol_decoder_round_trip(symbols: &[usize], precision: u32) -> Vec<usize> {
    let mut buf: Vec<u8> = Vec::new();
    symbol_stream(&mut buf, &histogram(symbols), precision, symbols);
    let mut reader = Reader::new(&buf);
    let mut dec = RansSymbolDecoder::new(&mut reader, symbols.len(), precision as usize).unwrap();
    (0..symbols.len()).map(|_| dec.decode()).collect()
}

#[test]
fn rans_symbol_decoder_round_trip() {
    let symbols = vec![0usize, 1, 2, 1, 0, 3, 3, 2, 1, 0, 0, 1, 2, 3, 0, 3, 3, 1];
    assert_eq!(symbol_decoder_round_trip(&symbols, 12), symbols);
}

#[test]
fn rans_symbol_decoder_handles_zero_runs() {
    // A sparse alphabet leaves zero frequencies in the table.
    let symbols = vec![0usize, 9, 9, 0, 0, 9, 3, 3, 9, 0, 9, 9, 0, 3, 9];
    assert_eq!(symbol_decoder_round_trip(&symbols, 12), symbols);
}

#[test]
fn rans_symbol_decoder_high_precision_large_alphabet() {
    // A large alphabet forces multi-byte frequency-table entries (precision
    // 20) and drives the state through the wider tail layouts.
    let mut symbols = Vec::new();
    let mut x = 7usize;
    for _ in 0..4000 {
        x = (x * 1103515245 + 12345) % 6000;
        symbols.push(x);
    }
    assert_eq!(symbol_decoder_round_trip(&symbols, 20), symbols);
}

#[test]
fn rans_symbol_decoder_single_symbol_alphabet() {
    // Every value identical: one symbol takes the whole probability mass.
    let symbols = vec![0usize; 20];
    assert_eq!(symbol_decoder_round_trip(&symbols, 12), symbols);
}

/// The rabs payload of `bits` (decoded first to last) with zero-bit
/// probability `p0` out of 256.
fn rabs_payload(bits: &[bool], p0: u64) -> Vec<u8> {
    let base = 4096u64;
    let f1 = 256 - p0;
    let mut out = Vec::new();
    let mut x = base;
    for &b in bits.iter().rev() {
        let f = if b { f1 } else { p0 };
        while x >= 4096 * f {
            out.push((x & 0xFF) as u8);
            x >>= 8;
        }
        x = if b { (x / f1) * 256 + x % f1 } else { (x / p0) * 256 + x % p0 + f1 };
    }
    flush_state(&mut out, x, base);
    out
}

#[test]
fn rabs_decoder_round_trip() {
    let bits = vec![
        true, false, true, true, false, false, false, true, false, true, true, true, false, true,
        false, false, true, true,
    ];
    // The encoder's zero-probability estimate.
    let freq_count_0 = bits.iter().filter(|b| !**b).count();
    let zero_prob =
        (((freq_count_0 as f32 / bits.len() as f32) * 256.0 + 0.5) as u16).clamp(1, 255) as u8;
    let buffer = rabs_payload(&bits, zero_prob as u64);

    let rev = RevReader::new(&buffer);
    let mut dec = RabsDecoder::new(rev, zero_prob).unwrap();
    let decoded: Vec<bool> = (0..bits.len()).map(|_| dec.decode_bit()).collect();
    assert_eq!(decoded, bits);
}
