use lhl::util::print::{endl, write_usize, AsciiRepr, Bits, MAX_NR_CHARS_USIZE};

#[test]
fn writes_usizes() {
    let mut nonstdout = vec![];
    write_usize(&mut nonstdout, 14500);
    assert_eq!(nonstdout, Vec::from(b"14500"));

    let mut nonstdout = vec![];
    write_usize(&mut nonstdout, 1450);
    assert_eq!(nonstdout, Vec::from(b"1450"));

    let mut nonstdout = vec![];
    write_usize(&mut nonstdout, 0);
    assert_eq!(nonstdout, Vec::from(b"0"));
}

#[test]
fn writes_largest_usize_and_appends() {
    let mut out = Vec::from(&b"n="[..]);
    write_usize(&mut out, usize::MAX);
    assert_eq!(out, Vec::from(&b"n=18446744073709551615"[..]));
    assert_eq!(MAX_NR_CHARS_USIZE, "18446744073709551615".len());
}

fn collect<const N: usize>(mut it: lhl::util::print::ArrayIter<u8, N>) -> Vec<u8> {
    let mut out = vec![];
    while let Some(c) = it.next() {
        out.push(c);
    }
    out
}

#[test]
fn usize_chars_are_decimal() {
    assert_eq!(collect(AsciiRepr::chars(&907usize)), b"907".to_vec());
    assert_eq!(collect(AsciiRepr::chars(&0usize)), b"0".to_vec());
    assert_eq!(collect(AsciiRepr::chars(&10usize)), b"10".to_vec());
}

#[test]
fn bits_chars_are_lowest_bit_first() {
    let bits = Bits::<8>::new(0b0000_0110);
    assert_eq!(collect(bits.chars()), b"01100000".to_vec());
    let bits = Bits::<3>::new(u128::MAX);
    assert_eq!(collect(bits.chars()), b"111".to_vec());
}

#[test]
fn endl_is_a_newline() {
    assert_eq!(collect(endl().chars()), b"\n".to_vec());
}
