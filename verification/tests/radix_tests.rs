use afsort::DigitAt;

#[test]
fn correct_radix_for_u8() {
    let num = 0x50u8;
    assert_eq!(Some(num), num.get_digit_at(0));
    assert_eq!(None, num.get_digit_at(1));
    assert_eq!(None, num.get_digit_at(5));
}

#[test]
fn correct_radix_for_u16() {
    let num = 0x3050u16;
    assert_eq!(Some(0x30), num.get_digit_at(0));
    assert_eq!(Some(0x50), num.get_digit_at(1));
    assert_eq!(None, num.get_digit_at(2));
    assert_eq!(None, num.get_digit_at(5));
}

#[test]
fn correct_radix_for_u32() {
    let num = 0x70103050u32;
    assert_eq!(Some(0x70), num.get_digit_at(0));
    assert_eq!(Some(0x10), num.get_digit_at(1));
    assert_eq!(Some(0x30), num.get_digit_at(2));
    assert_eq!(Some(0x50), num.get_digit_at(3));
    assert_eq!(None, num.get_digit_at(4));
    assert_eq!(None, num.get_digit_at(7));
}

#[test]
fn correct_radix_for_u64() {
    let num = 0x2040608070103050u64;
    assert_eq!(Some(0x20), num.get_digit_at(0));
    assert_eq!(Some(0x40), num.get_digit_at(1));
    assert_eq!(Some(0x60), num.get_digit_at(2));
    assert_eq!(Some(0x80), num.get_digit_at(3));
    assert_eq!(Some(0x70), num.get_digit_at(4));
    assert_eq!(Some(0x10), num.get_digit_at(5));
    assert_eq!(Some(0x30), num.get_digit_at(6));
    assert_eq!(Some(0x50), num.get_digit_at(7));
    assert_eq!(None, num.get_digit_at(8));
    assert_eq!(None, num.get_digit_at(13));
}

#[test]
fn radix_for_strings_and_bytes() {
    let s = "ab";
    assert_eq!(Some(b'a'), s.get_digit_at(0));
    assert_eq!(Some(b'b'), s.get_digit_at(1));
    assert_eq!(None, s.get_digit_at(2));
    let owned = String::from("xy");
    assert_eq!(Some(b'x'), owned.get_digit_at(0));
    assert_eq!(Some(b'y'), owned.get_digit_at(1));
    assert_eq!(None, owned.get_digit_at(2));
    let bytes: Vec<u8> = vec![7, 9];
    assert_eq!(Some(7), bytes.get_digit_at(0));
    assert_eq!(Some(9), bytes.get_digit_at(1));
    assert_eq!(None, bytes.get_digit_at(2));
    let slice: &[u8] = &[3];
    assert_eq!(Some(3), slice.get_digit_at(0));
    assert_eq!(None, slice.get_digit_at(1));
}
