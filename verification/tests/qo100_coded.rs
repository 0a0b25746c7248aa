//! The coded telemetry frame: Reed-Solomon, the convolutional code, the
//! interleaver and the chain of them all.

use sdroxide::qo100::fec::{
    decode_bits, decode_either, decode_frame, descramble, find_frame, interleaved_position, payload_text,
    sync_vector, CODED_BYTES, COLUMNS, CONV_SYMBOLS, FRAME_SYMBOLS, PAYLOAD_BYTES, ROWS,
    SCRAMBLER_POLY, TAIL_BITS,
};
use sdroxide::qo100::rs::{generator, Gf, Rs, A0, GF_POLY, K, N, NN, NROOTS, PAD};
use sdroxide::qo100::viterbi::{parity, viterbi_soft, ConvCode};

const CONV: ConvCode = ConvCode { poly_a: 0x4f, poly_b: 0x6d, invert_b: true };

fn codeword(data: &[u8; K]) -> [u8; N] {
    let mut cw = [0u8; N];
    cw[..K].copy_from_slice(data);
    cw[K..].copy_from_slice(&Rs::new().encode(data));
    cw
}

/// The generator polynomial derived from AO-40's stated roots must be the one
/// that is published as a table.
#[test]
fn the_generator_matches_the_published_ao40_table() {
    const C1_C16: [u8; 16] = [249, 59, 66, 4, 43, 126, 251, 97, 30, 3, 213, 50, 66, 170, 5, 24];

    let g = generator(&Gf::new());
    assert_eq!(g[0], 0, "C0 is α^0");
    assert_eq!(g[NROOTS], 0, "C32 is α^0");
    assert_eq!(&g[1..17], &C1_C16, "C1..C16");
    for i in 1..NROOTS {
        assert_eq!(g[i], g[NROOTS - i], "the generator is palindromic at {i}");
    }
}

/// The payload is `p[i] = (7i + 3) mod 256`; the two parity blocks are what
/// KA9Q's `encode_ref.c` leaves in its own shift registers after being fed it.
#[test]
fn the_encoder_reproduces_the_reference_implementations_parity() {
    const PARITY_EVEN: [u8; NROOTS] = [
        0x82, 0xd0, 0x05, 0x19, 0xf8, 0x35, 0xa2, 0xdd, 0xcb, 0x45, 0x87, 0xbc, 0x45, 0x1f, 0xfb,
        0x01, 0x9f, 0x07, 0x2a, 0x56, 0x99, 0xab, 0x25, 0x6c, 0xa5, 0xb9, 0xab, 0x4c, 0x61, 0xdb,
        0xc5, 0xa0,
    ];
    const PARITY_ODD: [u8; NROOTS] = [
        0xed, 0x47, 0xd0, 0x25, 0xdd, 0x3c, 0x45, 0xc9, 0x76, 0xb5, 0x69, 0x5b, 0xea, 0xf0, 0xc4,
        0xf4, 0xc5, 0x3c, 0x76, 0xb2, 0xe3, 0xb2, 0x00, 0x26, 0xb7, 0xb9, 0x25, 0xcc, 0xe1, 0x8b,
        0xb1, 0x2a,
    ];

    let payload: [u8; 256] = std::array::from_fn(|i| (i as u8).wrapping_mul(7).wrapping_add(3));
    let rs = Rs::new();
    // Even-numbered payload bytes make the first codeword, odd the second.
    let even: [u8; K] = std::array::from_fn(|i| payload[2 * i]);
    let odd: [u8; K] = std::array::from_fn(|i| payload[2 * i + 1]);
    assert_eq!(rs.encode(&even), PARITY_EVEN, "first codeword");
    assert_eq!(rs.encode(&odd), PARITY_ODD, "second codeword");
}

#[test]
fn a_clean_codeword_decodes_with_nothing_to_correct() {
    let rs = Rs::new();
    let data: [u8; K] = std::array::from_fn(|i| (i as u8).wrapping_mul(7).wrapping_add(3));
    let mut cw = [0u8; N];
    cw[..K].copy_from_slice(&data);
    cw[K..].copy_from_slice(&rs.encode(&data));
    assert_eq!(rs.decode(&mut cw), Some(0));
    assert_eq!(&cw[..K], &data);
}

#[test]
fn up_to_sixteen_symbol_errors_anywhere_are_corrected() {
    let rs = Rs::new();
    let data: [u8; K] = std::array::from_fn(|i| (i as u8).wrapping_mul(31).wrapping_add(17));
    let mut clean = [0u8; N];
    clean[..K].copy_from_slice(&data);
    clean[K..].copy_from_slice(&rs.encode(&data));

    for errors in 1..=16usize {
        let mut cw = clean;
        // Spread them across the whole codeword, parity included.
        for e in 0..errors {
            let at = (e * 9 + 5) % N;
            cw[at] ^= (e as u8).wrapping_mul(53).wrapping_add(1);
        }
        assert_eq!(rs.decode(&mut cw), Some(errors), "{errors} errors");
        assert_eq!(&cw[..K], &data, "{errors} errors");
    }
}

/// Past the code's strength it must say so rather than hand back plausible
/// rubbish.
#[test]
fn beyond_sixteen_errors_it_refuses_rather_than_inventing_a_codeword() {
    let rs = Rs::new();
    let data: [u8; K] = std::array::from_fn(|i| (i as u8).wrapping_mul(11));
    let mut clean = [0u8; N];
    clean[..K].copy_from_slice(&data);
    clean[K..].copy_from_slice(&rs.encode(&data));

    let mut refused = 0;
    for trial in 0..40u8 {
        let mut cw = clean;
        for e in 0..20usize {
            let at = (e * 7 + trial as usize * 3) % N;
            cw[at] ^= trial.wrapping_mul(37).wrapping_add(e as u8).wrapping_add(1) | 1;
        }
        match rs.decode(&mut cw) {
            None => refused += 1,
            Some(_) => assert_ne!(
                &cw[..K],
                &data,
                "trial {trial}: 20 errors are past correcting, so success here would be luck"
            ),
        }
    }
    assert!(refused > 20, "only {refused}/40 over-strength words were refused");
}

#[test]
fn a_refused_codeword_is_left_as_it_was() {
    let rs = Rs::default();
    let data: [u8; K] = std::array::from_fn(|i| (i as u8).wrapping_mul(11));
    let mut cw = codeword(&data);
    for e in 0..24usize {
        cw[e * 6] ^= 0x55 + e as u8;
    }
    let before = cw;
    assert_eq!(rs.decode(&mut cw), None);
    assert_eq!(cw, before);
}

/// What `decode` accepts is a codeword, and it says how many symbols it changed.
fn sound(cw: &[u8; N]) -> bool {
    let rs = Rs::new();
    let mut got = *cw;
    match rs.decode(&mut got) {
        None => got == *cw,
        Some(n) => {
            let data: [u8; K] = std::array::from_fn(|i| got[i]);
            let changed = got.iter().zip(cw).filter(|(a, b)| a != b).count();
            got[K..] == rs.encode(&data) && n == changed && n <= 16
        }
    }
}

#[test]
fn whatever_is_accepted_is_a_codeword() {
    let mut st = 0x9e37_79b9_7f4a_7c15u64;
    let mut next = move || {
        st ^= st << 13;
        st ^= st >> 7;
        st ^= st << 17;
        st
    };
    let data: [u8; K] = std::array::from_fn(|i| (i as u8).wrapping_mul(11));
    let clean = codeword(&data);
    for trial in 0..400 {
        let mut cw = clean;
        for _ in 0..trial % 40 {
            cw[next() as usize % N] ^= next() as u8;
        }
        assert!(sound(&cw), "trial {trial}");
    }
    for trial in 0..100 {
        let cw: [u8; N] = std::array::from_fn(|_| next() as u8);
        assert!(sound(&cw), "random word {trial}");
    }
}

/// The 32 parity symbols behind 128 zeros that have the given syndromes.
fn with_syndromes(want: [u8; NROOTS]) -> [u8; N] {
    let gf = Gf::new();
    // Row i: the powers of root i, and what they are to add up to.
    let mut rows: Vec<Vec<u8>> = (0..NROOTS)
        .map(|i| {
            let root = gf.alpha_to[(11 * (112 + i)) % NN];
            let mut powers = vec![1u8; NROOTS];
            for j in (0..NROOTS - 1).rev() {
                powers[j] = gf.product(powers[j + 1], root);
            }
            powers.push(want[i]);
            powers
        })
        .collect();
    for c in 0..NROOTS {
        let pivot = (c..NROOTS).find(|&r| rows[r][c] != 0).expect("a regular matrix");
        rows.swap(c, pivot);
        let inv = gf.inverse(rows[c][c]);
        rows[c] = rows[c].iter().map(|&x| gf.product(x, inv)).collect();
        for r in 0..NROOTS {
            if r != c {
                let by = rows[r][c];
                rows[r] = (0..=NROOTS).map(|k| rows[r][k] ^ gf.product(by, rows[c][k])).collect();
            }
        }
    }
    let mut cw = [0u8; N];
    for (j, row) in rows.iter().enumerate() {
        cw[K + j] = row[NROOTS];
    }
    cw
}

/// A locator of lower degree than its register is long names its positions and
/// still describes no error pattern.
#[test]
fn a_locator_that_describes_no_pattern_is_refused() {
    let mut late = [1u8; NROOTS];
    late[0] = 0;
    let mut last = [0u8; NROOTS];
    last[NROOTS - 1] = 1;
    for want in [late, last] {
        let mut cw = with_syndromes(want);
        let before = cw;
        assert_eq!(Rs::new().decode(&mut cw), None);
        assert_eq!(cw, before);
    }
    // One error at the last symbol has all syndromes alike.
    let mut cw = with_syndromes([1u8; NROOTS]);
    assert_eq!(Rs::new().decode(&mut cw), Some(1));
    assert_eq!(cw, [0u8; N]);
}

/// Two payloads that differ differ in at least thirty-three symbols once coded.
#[test]
fn codewords_keep_their_distance() {
    let a: [u8; K] = std::array::from_fn(|i| i as u8);
    let mut b = a;
    b[77] ^= 1;
    let (x, y) = (codeword(&a), codeword(&b));
    let apart = x.iter().zip(y.iter()).filter(|(p, q)| p != q).count();
    assert!(apart >= 33, "{apart}");
    assert_eq!(codeword(&[0u8; K]), [0u8; N], "nothing is a codeword");
}

#[test]
fn the_field_tables_hold_the_powers_of_alpha() {
    let gf = Gf::new();
    assert_eq!(GF_POLY, 0x187);
    assert_eq!(NN, 255);
    assert_eq!(PAD + N, NN);
    assert_eq!(&gf.alpha_to[..9], &[1, 2, 4, 8, 16, 32, 64, 128, 0x87]);
    assert_eq!(gf.index_of[0], A0);
    assert_eq!(gf.index_of[1], 0);
    assert_eq!(gf.index_of[0x87], 8);
    assert_eq!(gf.modnn(254), 254);
    assert_eq!(gf.modnn(255), 0);
    assert_eq!(gf.modnn(1000), 235);
    assert_eq!(gf.mul_log(3, 5), gf.alpha_to[8]);
    assert_eq!(gf.mul_log(A0, 5), 0);
    assert_eq!(gf.product(0x80, 2), 0x87);
    for a in 1..=255u8 {
        assert_eq!(gf.product(a, gf.inverse(a)), 1, "{a}");
    }
    assert_eq!(gf.inverse(0), 0);
}

#[test]
fn parity_counts_the_ones() {
    for x in 0..=255u8 {
        assert_eq!(parity(x) as u32, x.count_ones() & 1, "{x}");
    }
}

fn parity_of(x: u8) -> u8 {
    x.count_ones() as u8 & 1
}

fn convolve(bits: &[u8]) -> Vec<bool> {
    let mut state = 0u32;
    let mut symbols = Vec::new();
    for &b in bits {
        let reg = (state << 1) | b as u32;
        symbols.push(parity_of(reg as u8 & CONV.poly_a & 0x7f) == 1);
        symbols.push(parity_of(reg as u8 & CONV.poly_b & 0x7f) != 1);
        state = reg & 0x3f;
    }
    symbols
}

/// Build a coded frame the way the satellite does.
fn encode_frame(payload: &[u8; PAYLOAD_BYTES]) -> Vec<bool> {
    let rs = Rs::new();
    let mut bytes = Vec::with_capacity(CODED_BYTES);
    bytes.extend_from_slice(payload);
    let parity: Vec<[u8; NROOTS]> =
        (0..2).map(|j| rs.encode(&std::array::from_fn(|i| payload[2 * i + j]))).collect();
    for i in 0..NROOTS {
        for p in parity.iter() {
            bytes.push(p[i]);
        }
    }

    // Scramble, then convolutionally encode MSB first, then interleave.
    let mut sr: u8 = 0xff;
    let mut conv_in: Vec<u8> = Vec::with_capacity(CODED_BYTES * 8 + TAIL_BITS);
    for &b in &bytes {
        let c = b ^ sr;
        for _ in 0..8 {
            sr = (sr << 1) | parity_of(sr & SCRAMBLER_POLY);
        }
        for k in (0..8).rev() {
            conv_in.push((c >> k) & 1);
        }
    }
    conv_in.extend(std::iter::repeat_n(0u8, TAIL_BITS));
    let symbols = convolve(&conv_in);
    assert_eq!(symbols.len(), CONV_SYMBOLS);

    let sync = sync_vector();
    let mut frame = vec![false; FRAME_SYMBOLS];
    for (i, &s) in sync.iter().enumerate() {
        frame[ROWS * i] = s;
    }
    for (n, &s) in symbols.iter().enumerate() {
        frame[interleaved_position(n)] = s;
    }
    frame
}

/// Full confidence, on the scale the soft symbols are kept on.
const ONE: i32 = 1_000_000;

/// Hard bits as ideal soft values.
fn soft(bits: &[bool], amp: i32) -> Vec<i32> {
    bits.iter().map(|&b| if b { amp } else { -amp }).collect()
}

fn sample_payload() -> [u8; PAYLOAD_BYTES] {
    std::array::from_fn(|i| (i as u8).wrapping_mul(7).wrapping_add(3))
}

/// The interleaver's closed form, checked against the pointer walk that steps
/// forward 80 bits at a time through a 650-byte array, wrapping to the next bit
/// of the byte each time it runs off the end.
#[test]
fn the_interleaver_matches_the_reference_encoders_pointer_walk() {
    let (mut bindex, mut bmask) = (0usize, 0x40u8);
    for n in 0..CONV_SYMBOLS {
        let bit_in_byte = bmask.leading_zeros() as usize;
        assert_eq!(bindex * 8 + bit_in_byte, interleaved_position(n), "symbol {n}");
        bindex += 10; // forward 80 bits
        if bindex >= 650 {
            bindex -= 650;
            bmask >>= 1;
            if bmask == 0 {
                bmask = 0x80;
                bindex += 1;
            }
        }
    }
}

#[test]
fn the_interleaver_uses_no_cell_twice_and_no_sync_cell() {
    let mut used = vec![false; FRAME_SYMBOLS];
    for i in 0..COLUMNS {
        used[ROWS * i] = true;
    }
    for n in 0..CONV_SYMBOLS {
        let p = interleaved_position(n);
        assert!(!used[p], "symbol {n}");
        used[p] = true;
    }
}

#[test]
fn the_sync_vector_is_the_published_one() {
    const SPEC: &str = "11111110000111011110010110010010000001000100110001011101011011000";
    let got: String = sync_vector().iter().map(|&b| if b { '1' } else { '0' }).collect();
    assert_eq!(got, SPEC);
}

#[test]
fn scrambling_twice_gives_the_bytes_back() {
    let mut bytes: Vec<u8> = (0..CODED_BYTES).map(|i| (i * 3) as u8).collect();
    let was = bytes.clone();
    descramble(&mut bytes);
    assert_eq!(bytes[0], 0xff, "the register starts at all ones");
    assert_ne!(bytes, was);
    descramble(&mut bytes);
    assert_eq!(bytes, was);
}

#[test]
fn the_convolutional_decoder_reads_back_what_was_sent() {
    let mut bits: Vec<u8> = (0..200u32).map(|i| ((i * i + 3 * i) >> 2) as u8 & 1).collect();
    bits.extend([0; 6]);
    let mut s = soft(&convolve(&bits), 100);
    assert_eq!(viterbi_soft(&s, CONV), bits);
    // A few wrong symbols, well apart, do not matter.
    for i in (10..400).step_by(40) {
        s[i] = -s[i];
    }
    assert_eq!(viterbi_soft(&s, CONV), bits);
    assert_eq!(viterbi_soft(&[], CONV), Vec::<u8>::new());
}

#[test]
fn a_clean_frame_reads_as_sent() {
    let frame = decode_frame(&soft(&encode_frame(&sample_payload()), ONE)).expect("a frame");
    assert_eq!(frame.payload, sample_payload());
    assert_eq!(frame.rs_errors, [0, 0], "a clean frame needs no correction");
    assert_eq!(frame.start, 0);
    assert_eq!(frame.sync_corr, frame.sync_total);
    assert_eq!(frame.sync_total, 65 * ONE as i64);
}

/// The same frame received upside down, which is what an I/Q swap or the wrong
/// sideband gives. Differential detection does not fix this.
#[test]
fn an_inverted_frame_decodes_just_as_well() {
    let bits = encode_frame(&sample_payload());
    let flipped: Vec<bool> = bits.iter().map(|&b| !b).collect();
    let frame = decode_frame(&soft(&flipped, ONE)).expect("inverted frames decode");
    assert_eq!(frame.payload, sample_payload());
}

#[test]
fn a_frame_is_found_wherever_it_sits_in_a_longer_stream() {
    let bits = encode_frame(&sample_payload());
    for lead in [1usize, 37, 500] {
        let mut stream = vec![false; lead];
        stream.extend_from_slice(&bits);
        stream.extend(std::iter::repeat_n(false, 9));
        let mut s = soft(&stream, ONE);
        // The lead-in is silence, not confident zeros.
        s[..lead].fill(0);
        let frame = decode_frame(&s).expect("found at any offset");
        assert_eq!(frame.start, lead, "lead {lead}");
        assert_eq!(frame.payload, sample_payload());
    }
}

/// The point of the whole format: a frame far too broken for the uncoded path
/// still decodes.
#[test]
fn a_frame_with_one_symbol_in_twelve_wrong_still_decodes() {
    let bits = encode_frame(&sample_payload());
    let mut sf = soft(&bits, ONE);
    let mut st = 0x9e37_79b9_7f4a_7c15u64;
    let mut hits = 0;
    for v in sf.iter_mut() {
        st ^= st << 13;
        st ^= st >> 7;
        st ^= st << 17;
        if (st >> 11) % 100 < 8 {
            *v = -*v;
            hits += 1;
        }
    }
    assert!(hits > FRAME_SYMBOLS / 15, "meant to break {hits} symbols");
    let frame = decode_frame(&sf).expect("the coded format is for exactly this");
    assert_eq!(frame.payload, sample_payload());
    assert!(frame.rs_errors.iter().any(|&e| e > 0), "the RS layer should have had work to do");
}

/// Noise must not produce a frame. A 65-bit correlation asked at 5200 offsets
/// will always report a best match; the threshold is what stops that being
/// mistaken for a decode.
#[test]
fn noise_never_yields_a_frame() {
    let mut st = 0x2545_f491_4f6c_dd1du64;
    for trial in 0..8 {
        let noise: Vec<i32> = (0..FRAME_SYMBOLS + 400)
            .map(|_| {
                st ^= st << 13;
                st ^= st >> 7;
                st ^= st << 17;
                (((st >> 11) as f32 / (1u64 << 52) as f32 - 1.0) * ONE as f32) as i32
            })
            .collect();
        assert!(decode_frame(&noise).is_none(), "trial {trial}");
    }
}

#[test]
fn a_stream_shorter_than_a_frame_has_none() {
    let bits = encode_frame(&sample_payload());
    let s = soft(&bits, ONE);
    assert!(decode_frame(&s[..FRAME_SYMBOLS - 1]).is_none());
    assert!(decode_frame(&[]).is_none());
    assert!(find_frame(&s[..FRAME_SYMBOLS - 1], &sync_vector()).is_none());
    assert!(decode_frame(&vec![0; FRAME_SYMBOLS]).is_none(), "silence is no frame");
}

#[test]
fn the_alignment_says_where_and_which_way_up() {
    let bits = encode_frame(&sample_payload());
    let mut s = vec![0; 20];
    s.extend(soft(&bits, 10).iter().map(|v| -v));
    let a = find_frame(&s, &sync_vector()).expect("found");
    assert_eq!(a.start, 20);
    assert!(a.inverted);
    assert_eq!((a.corr, a.total), (650, 650));
}

#[test]
fn bits_past_correcting_give_no_payload() {
    // Noughts descramble to the scrambler's own sequence, which is far from any
    // codeword.
    let zeros = vec![0u8; 2566];
    assert!(decode_bits(&zeros).is_none());
}

#[test]
fn a_payload_reads_as_text() {
    assert_eq!(payload_text(b"QO-100 telemetry"), "QO-100 telemetry");
    assert_eq!(payload_text("13 \u{b0}C".as_bytes()), "13 \u{b0}C");
    assert_eq!(payload_text(b"a\xffb"), "a\u{fffd}b");
    assert_eq!(payload_text(b""), "");
}

#[test]
fn either_pairing_of_the_chips_can_hold_the_frame() {
    let good = soft(&encode_frame(&sample_payload()), ONE);
    let silence = vec![0i32; FRAME_SYMBOLS];
    for (a, b) in [(&good, &silence), (&silence, &good)] {
        let f = decode_either(a, b).expect("one of them reads");
        assert_eq!(f.payload, sample_payload());
    }
    assert!(decode_either(&silence, &silence).is_none());
}

/// Turning every symbol round changes neither what is read nor where or how well.
#[test]
fn an_inverted_stream_gives_the_same_outcome() {
    let bits = encode_frame(&sample_payload());
    let mut sf = vec![0i32; 11];
    sf.extend(soft(&bits, ONE));
    let mut st = 0x1234_5678_9abc_def1u64;
    for v in sf.iter_mut() {
        st ^= st << 13;
        st ^= st >> 7;
        st ^= st << 17;
        *v += ((st >> 20) % 1_600_000) as i32 - 800_000;
    }
    let neg: Vec<i32> = sf.iter().map(|v| -v).collect();
    let (a, b) = (decode_frame(&sf).expect("a frame"), decode_frame(&neg).expect("a frame"));
    assert_eq!(a.payload, b.payload);
    assert_eq!((a.start, a.sync_corr, a.sync_total), (b.start, b.sync_corr, b.sync_total));
    assert_eq!(a.rs_errors, b.rs_errors);
}

/// Of messages that are as likely, the one with zeros is taken.
#[test]
fn a_tie_goes_to_the_zeros() {
    assert_eq!(viterbi_soft(&[0; 40], CONV), vec![0u8; 20]);
}
