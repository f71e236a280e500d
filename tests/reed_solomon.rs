use rs_codec::code::reed_solomon::{DecodeError, ReedSolomon};
use rs_codec::code::Code;
use rs_codec::util::galois_field_2m::GaloisField2m;

type Gf16 = GaloisField2m<0b10011>;

fn elems(v: &[u16]) -> Vec<Gf16> {
    v.iter().map(|&x| Gf16::new(x).unwrap()).collect()
}

fn values(v: &[Gf16]) -> Vec<u16> {
    v.iter().map(|x| x.value()).collect()
}

fn code() -> ReedSolomon<0b10011> {
    ReedSolomon::<0b10011>::new(15, 11).unwrap()
}

fn message() -> Vec<Gf16> {
    elems(&[1, 2, 3, 4, 5, 6, 7, 8, 9, 10, 11])
}

#[test]
fn construction_checks_lengths() {
    let rs = code();
    assert_eq!(rs.code_len(), 15);
    assert_eq!(rs.message_len(), 11);
    assert_eq!(rs.parity_len(), 4);
    assert_eq!(Code::code_len(&rs), 15);
    assert_eq!(Code::message_len(&rs), 11);
    assert!(ReedSolomon::<0b10011>::new(11, 15).is_none());
    assert!(ReedSolomon::<0b10011>::new(16, 11).is_none());
    assert!(ReedSolomon::<0b111>::new(3, 1).is_some());
    assert!(ReedSolomon::<0b11>::new(1, 1).is_none());
}

#[test]
fn generator_polynomial_has_the_first_powers_of_alpha_as_roots() {
    // (x + 1)(x + a)(x + a^2)(x + a^3) = x^4 + 15x^3 + 3x^2 + x + 12
    assert_eq!(code().generator_values(), vec![1, 15, 3, 1, 12]);
    let rs = ReedSolomon::<0b10011>::new(15, 13).unwrap();
    // (x + 1)(x + 2) = x^2 + 3x + 2
    assert_eq!(rs.generator_values(), vec![1, 3, 2]);
}

#[test]
fn encode_appends_exact_parity() {
    let cw = code().encode(&message());
    assert_eq!(values(&cw), vec![1, 2, 3, 4, 5, 6, 7, 8, 9, 10, 11, 3, 3, 12, 12]);
}

#[test]
fn round_trip_without_errors() {
    let rs = code();
    for m in [
        vec![0u16; 11],
        vec![15u16; 11],
        vec![1, 2, 3, 4, 5, 6, 7, 8, 9, 10, 11],
        vec![9, 0, 0, 4, 0, 13, 2, 0, 0, 0, 1],
    ] {
        let msg = elems(&m);
        let cw = rs.encode(&msg);
        assert_eq!(rs.decode(&cw), Ok(msg));
    }
}

#[test]
fn corrects_every_single_error() {
    let rs = code();
    let msg = message();
    let cw = rs.encode(&msg);
    for pos in 0..15 {
        for e in 1..16u16 {
            let mut r = cw.clone();
            r[pos] = r[pos] + Gf16::new(e).unwrap();
            assert_eq!(rs.decode(&r), Ok(msg.clone()));
        }
    }
}

#[test]
fn corrects_two_errors() {
    let rs = code();
    let msg = message();
    let cw = rs.encode(&msg);
    for i in 0..15 {
        for j in (i + 1)..15 {
            let mut r = cw.clone();
            r[i] = r[i] + Gf16::new(7).unwrap();
            r[j] = r[j] + Gf16::new(9).unwrap();
            assert_eq!(rs.decode(&r), Ok(msg.clone()));
        }
    }
    let mut r = cw.clone();
    r[2] = Gf16::new(0).unwrap();
    r[13] = Gf16::new(5).unwrap();
    assert_eq!(rs.decode(&r), Ok(msg));
}

#[test]
fn three_errors_are_detected() {
    let rs = code();
    let cw = rs.encode(&message());
    let mut r = cw.clone();
    r[3] = r[3] + Gf16::new(1).unwrap();
    r[7] = r[7] + Gf16::new(2).unwrap();
    r[11] = r[11] + Gf16::new(3).unwrap();
    assert_eq!(rs.decode(&r), Err(DecodeError::Uncorrectable));
}

#[test]
fn locator_without_enough_roots_is_reported() {
    let rs = code();
    let cw = rs.encode(&message());
    let mut r = cw.clone();
    r[0] = r[0] + Gf16::new(1).unwrap();
    r[7] = r[7] + Gf16::new(2).unwrap();
    r[14] = r[14] + Gf16::new(3).unwrap();
    assert_eq!(rs.decode(&r), Err(DecodeError::InconsistentLocator));
}

#[test]
fn full_length_message_passes_through() {
    let rs = ReedSolomon::<0b10011>::new(11, 11).unwrap();
    assert_eq!(rs.parity_len(), 0);
    assert_eq!(rs.generator_values(), vec![1]);
    let msg = message();
    let cw = rs.encode(&msg);
    assert_eq!(cw, msg);
    assert_eq!(rs.decode(&cw), Ok(msg));
}

#[test]
fn larger_field_round_trip_and_correction() {
    type Gf256 = GaloisField2m<0b100011101>;
    let rs = ReedSolomon::<0b100011101>::new(40, 30).unwrap();
    let msg: Vec<Gf256> = (0..30u16).map(|v| Gf256::new(v * 7 % 256).unwrap()).collect();
    let cw = rs.encode(&msg);
    assert_eq!(cw.len(), 40);
    assert_eq!(rs.decode(&cw), Ok(msg.clone()));
    let mut r = cw.clone();
    for (k, pos) in [0usize, 9, 17, 30, 39].iter().enumerate() {
        r[*pos] = r[*pos] + Gf256::new(k as u16 * 31 + 1).unwrap();
    }
    assert_eq!(rs.decode(&r), Ok(msg));
}

fn remainder_by_generator(code: &[u16], generator: &[u16]) -> Vec<u16> {
    let mut work = elems(code);
    let g = elems(generator);
    let d = g.len() - 1;
    for i in 0..(work.len() - d) {
        let lead = work[i];
        for j in 0..g.len() {
            work[i + j] = work[i + j] + lead * g[j];
        }
    }
    values(&work[work.len() - d..])
}

#[test]
fn codewords_are_divisible_by_the_generator() {
    let rs = code();
    let g = rs.generator_values();
    for m in [
        vec![1u16, 2, 3, 4, 5, 6, 7, 8, 9, 10, 11],
        vec![15u16, 0, 0, 0, 0, 0, 0, 0, 0, 0, 1],
        vec![0u16; 11],
    ] {
        let cw = values(&rs.encode(&elems(&m)));
        assert_eq!(remainder_by_generator(&cw, &g), vec![0, 0, 0, 0]);
    }
    // a corrupted word leaves a nonzero remainder
    let mut cw = values(&rs.encode(&message()));
    cw[4] ^= 6;
    assert_ne!(remainder_by_generator(&cw, &g), vec![0, 0, 0, 0]);
}

fn round_trip_through<C: Code>(c: &C, message: &Vec<C::Symbol>) -> Result<Vec<C::Symbol>, C::Error> {
    let cw = c.encode(message);
    c.decode(&cw)
}

#[test]
fn code_trait_round_trip() {
    let rs = code();
    let msg = message();
    assert_eq!(values(&Code::encode(&rs, &msg)), vec![1, 2, 3, 4, 5, 6, 7, 8, 9, 10, 11, 3, 3, 12, 12]);
    assert_eq!(round_trip_through(&rs, &msg), Ok(msg));
}

#[test]
fn two_altered_symbols_of_a_sparse_codeword_are_repaired() {
    let rs = code();
    let expected = elems(&[0, 0, 0, 0, 0, 0, 0, 0, 0, 0, 1]);
    assert_eq!(values(&rs.encode(&expected)), vec![0, 0, 0, 0, 0, 0, 0, 0, 0, 0, 1, 15, 3, 1, 12]);
    let r = elems(&[5, 0, 0, 0, 0, 0, 0, 0, 0, 0, 1, 15, 3, 6, 12]);
    assert_eq!(rs.decode(&r), Ok(expected.clone()));
    let r = elems(&[0, 0, 0, 9, 0, 0, 0, 0, 0, 0, 0, 15, 3, 1, 12]);
    assert_eq!(rs.decode(&r), Ok(expected));
}

#[test]
fn three_flipped_symbols_of_zero_word_are_uncorrectable() {
    let rs = code();
    let r = elems(&[0, 0, 0, 0, 0, 0, 0, 0, 0, 0, 0, 0, 1, 1, 1]);
    assert_eq!(rs.decode(&r), Err(DecodeError::Uncorrectable));
}

#[test]
fn adding_a_codeword_shifts_the_outcome() {
    let rs = code();
    let cw = values(&rs.encode(&message()));
    let add = |r: &[u16]| -> Vec<Gf16> { elems(&r.iter().zip(cw.iter()).map(|(a, b)| a ^ b).collect::<Vec<u16>>()) };
    let bad = [0u16, 0, 0, 0, 0, 0, 0, 0, 0, 0, 0, 0, 1, 1, 1];
    assert_eq!(rs.decode(&add(&bad)), Err(DecodeError::Uncorrectable));
    let near = [5u16, 0, 0, 0, 0, 0, 0, 0, 0, 0, 1, 15, 3, 6, 12];
    assert_eq!(rs.decode(&add(&near)), Ok(elems(&[1, 2, 3, 4, 5, 6, 7, 8, 9, 10, 10])));
}
