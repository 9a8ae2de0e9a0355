use galois::codes::{Bch, ReedSolomon};
use galois::lfsr::{berlekamp_massey, Flfsr, Glfsr};
use galois::GaloisField;

#[test]
fn rs_encode_length() {
    let gf = GaloisField::new(7, 1).unwrap();
    let rs = ReedSolomon::new(gf.clone(), 6, 4).unwrap();
    let msg = gf.array(vec![1, 2, 3, 4]).unwrap();
    let codeword = rs.encode(&msg).unwrap();
    assert_eq!(codeword.len(), 6);
    assert_eq!(&codeword.values()[2..], msg.values());
}

#[test]
fn rs_roundtrip_no_errors() {
    let gf = GaloisField::new(7, 1).unwrap();
    let rs = ReedSolomon::new(gf.clone(), 6, 4).unwrap();
    let msg = gf.array(vec![1, 2, 3, 4]).unwrap();
    let codeword = rs.encode(&msg).unwrap();
    let decoded = rs.decode(&codeword).unwrap();
    assert_eq!(decoded.values(), msg.values());
}

#[test]
fn rs_corrects_single_error() {
    let gf = GaloisField::new(7, 1).unwrap();
    let rs = ReedSolomon::new(gf.clone(), 6, 4).unwrap();
    let msg = gf.array(vec![1, 2, 3, 4]).unwrap();
    let mut codeword = rs.encode(&msg).unwrap().values().to_vec();
    codeword[0] = gf.add(codeword[0], 3);
    let received = gf.array(codeword).unwrap();
    let decoded = rs.decode(&received).unwrap();
    assert_eq!(decoded.values(), msg.values());
}

#[test]
fn rs_corrects_message_error() {
    let gf = GaloisField::new(7, 1).unwrap();
    let rs = ReedSolomon::new(gf.clone(), 6, 4).unwrap();
    let msg = gf.array(vec![1, 2, 3, 4]).unwrap();
    let mut codeword = rs.encode(&msg).unwrap().values().to_vec();
    codeword[5] = gf.add(codeword[5], 2);
    let received = gf.array(codeword).unwrap();
    let decoded = rs.decode(&received).unwrap();
    assert_eq!(decoded.values(), msg.values());
}

#[test]
fn rs_corrects_two_errors() {
    let gf = GaloisField::new(7, 1).unwrap();
    let rs = ReedSolomon::new(gf.clone(), 7, 3).unwrap();
    let msg = gf.array(vec![1, 2, 3]).unwrap();
    let mut codeword = rs.encode(&msg).unwrap().values().to_vec();
    codeword[0] = gf.add(codeword[0], 2);
    codeword[3] = gf.add(codeword[3], 4);
    let received = gf.array(codeword).unwrap();
    let decoded = rs.decode(&received).unwrap();
    assert_eq!(decoded.values(), msg.values());
}

#[test]
fn rs_corrects_three_errors() {
    let gf = GaloisField::new(11, 1).unwrap();
    let rs = ReedSolomon::new(gf.clone(), 9, 3).unwrap();
    let msg = gf.array(vec![1, 2, 3]).unwrap();
    let mut codeword = rs.encode(&msg).unwrap().values().to_vec();
    codeword[0] = gf.add(codeword[0], 2);
    codeword[2] = gf.add(codeword[2], 3);
    codeword[5] = gf.add(codeword[5], 1);
    let received = gf.array(codeword).unwrap();
    let decoded = rs.decode(&received).unwrap();
    assert_eq!(decoded.values(), msg.values());
}

#[test]
fn rs_rejects_wrong_length() {
    let gf = GaloisField::new(7, 1).unwrap();
    let rs = ReedSolomon::new(gf.clone(), 6, 4).unwrap();
    assert!(ReedSolomon::new(gf.clone(), 4, 4).is_err());
    let short = gf.array(vec![1, 2, 3]).unwrap();
    assert!(rs.encode(&short).is_err());
    assert!(rs.decode(&short).is_err());
}

#[test]
fn bch_roundtrip_single_error() {
    let gf = GaloisField::new(7, 1).unwrap();
    let bch = Bch::new(gf.clone(), 6, 4, 1).unwrap();
    assert_eq!(bch.t(), 1);
    let msg = gf.array(vec![1, 2, 3, 4]).unwrap();
    let mut codeword = bch.encode(&msg).unwrap().values().to_vec();
    codeword[1] = gf.add(codeword[1], 5);
    let received = gf.array(codeword).unwrap();
    let decoded = bch.decode(&received).unwrap();
    assert_eq!(decoded.values(), msg.values());
}

#[test]
fn berlekamp_massey_gf2() {
    let gf = GaloisField::new(2, 1).unwrap();
    let seq = gf.array(vec![1, 1, 0, 1, 1, 0]).unwrap();
    let poly = berlekamp_massey(&seq).unwrap();
    assert!(!poly.is_zero());
    assert_eq!(*poly.coeffs().last().unwrap(), 1);
}

#[test]
fn flfsr_shifts_in_tap_sum() {
    let gf = GaloisField::new(2, 1).unwrap();
    let mut lfsr = Flfsr::new(gf, vec![1, 0, 1], vec![0, 2]).unwrap();
    let out = lfsr.generate(6);
    assert_eq!(out.len(), 6);
    assert_eq!(out.values()[0], 1);
    assert_eq!(lfsr.state().len(), 3);
}

#[test]
fn glfsr_outputs_first_entry() {
    let gf = GaloisField::new(5, 1).unwrap();
    let mut lfsr = Glfsr::new(gf, vec![1, 2], vec![1, 1]).unwrap();
    assert_eq!(lfsr.step(), 1);
    assert_eq!(lfsr.step(), 2);
    assert_eq!(lfsr.step(), 3);
}
