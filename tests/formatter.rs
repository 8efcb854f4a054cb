use oombak::bits::{binary, from, get_resized_bitvec, Bits, Format, Option as DisplayOption};
use oombak::dut::Dut;

fn bits_lsb_first(bools: &[bool]) -> Bits {
    Bits::from_bools(&bools.to_vec())
}

fn bits_of_literal(msb_first: &str) -> Bits {
    let bools: Vec<bool> = msb_first.chars().rev().map(|c| c == '1').collect();
    Bits::from_bools(&bools)
}

fn render(b: &Bits, width: usize, twos_complement: bool) -> String {
    from(b, &DisplayOption { format: Format::Binary, width, twos_complement })
}

#[test]
fn resize_to_own_width_is_identity() {
    let b = bits_of_literal("1101");
    for tc in [false, true] {
        let r = get_resized_bitvec(&b, 4, tc);
        assert_eq!(r.len(), 4);
        for i in 0..4 {
            assert_eq!(r.get(i), b.get(i));
        }
        assert_eq!(render(&b, 4, tc), "1101");
    }
}

#[test]
fn resize_of_empty_vector_to_zero_width() {
    let b = Bits::new();
    assert_eq!(render(&b, 0, true), "");
    assert_eq!(get_resized_bitvec(&b, 0, false).len(), 0);
}

#[test]
fn twos_complement_extends_with_sign_bit() {
    let b = bits_of_literal("10");
    assert_eq!(render(&b, 4, true), "1110");
}

#[test]
fn plain_extension_fills_with_zero() {
    let b = bits_of_literal("10");
    assert_eq!(render(&b, 4, false), "0010");
}

#[test]
fn one_bit_zero_fill() {
    let b = bits_lsb_first(&[true]);
    assert_eq!(render(&b, 4, false), "0001");
}

#[test]
fn positive_value_sign_extends_with_zero() {
    let b = bits_of_literal("01");
    assert_eq!(render(&b, 4, true), "0001");
}

#[test]
fn longer_vector_is_truncated_at_high_end() {
    let b = bits_of_literal("10101010");
    assert_eq!(render(&b, 4, false), "1010");
    assert_eq!(binary(&b, 3, true), "010");
}

#[test]
fn empty_vector_extends_with_zero_even_in_twos_complement() {
    let b = Bits::new();
    assert_eq!(render(&b, 3, true), "000");
}

#[test]
fn default_option_is_binary_zero_width_unsigned() {
    let o = DisplayOption::default();
    assert!(o.format == Format::Binary);
    assert_eq!(o.width, 0);
    assert!(!o.twos_complement);
    assert_eq!(from(&bits_of_literal("1"), &o), "");
}

#[test]
fn words_decode_least_significant_bit_first() {
    let b = Dut::bitvec_from(&vec![0x5u32], 4);
    assert_eq!(b.len(), 4);
    assert_eq!(render(&b, 4, false), "0101");
    let wide = Dut::bitvec_from(&vec![0xffff_fffeu32, 0x1], 33);
    assert_eq!(render(&wide, 33, false), format!("1{}0", "1".repeat(31)));
}

#[test]
fn words_of_bits_hold_the_live_bits() {
    let b = bits_of_literal("1011");
    let w = b.to_words();
    assert!(!w.is_empty());
    assert_eq!(w[0] & 0xf, 0xb);
}

#[test]
fn pushed_bits_come_out_in_order() {
    let mut b = Bits::new();
    b.push(true);
    b.push(false);
    b.push(false);
    assert_eq!(b.len(), 3);
    assert!(b.get(0));
    assert!(!b.get(2));
    assert_eq!(render(&b, 3, false), "001");
}

#[test]
fn cloned_bits_are_equal_and_independent() {
    let a = bits_of_literal("0110");
    let mut b = a.clone();
    assert_eq!(render(&b, 4, false), "0110");
    b.push(true);
    assert_eq!(a.len(), 4);
    assert_eq!(b.len(), 5);
}
