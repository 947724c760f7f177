use succinct::bit_vector::BitVectorString;
use succinct::internal_data_structure::raw_bit_vector::RawBitVector;

fn raw(s: &str) -> RawBitVector {
    RawBitVector::from_str(&BitVectorString::new(s))
}

fn expect_bits(rbv: &RawBitVector, expected: &[bool]) {
    for (i, bit) in expected.iter().enumerate() {
        assert_eq!(rbv.access(i as u64), *bit);
    }
}

fn to_bools(s: &str) -> Vec<bool> {
    s.chars().filter(|c| *c != '_').map(|c| c == '1').collect()
}

#[test]
fn test() {
    for length in 1..=1 << 16 {
        let rbv = RawBitVector::from_length(length);
        assert_eq!(rbv.length(), length);
    }
}

#[test]
fn raw_from_length_t1() {
    let rbv = RawBitVector::from_length(1);
    expect_bits(&rbv, &[false; 1]);
}

#[test]
fn raw_from_length_t2() {
    let rbv = RawBitVector::from_length(2);
    expect_bits(&rbv, &[false; 2]);
}

#[test]
fn raw_from_length_t8() {
    let rbv = RawBitVector::from_length(8);
    expect_bits(&rbv, &[false; 8]);
}

#[test]
fn raw_from_length_t9() {
    let rbv = RawBitVector::from_length(9);
    expect_bits(&rbv, &[false; 9]);
}

#[test]
fn raw_from_str_t1_1() {
    let rbv = raw("0");
    assert_eq!(rbv.length(), 1);
    expect_bits(&rbv, &[false]);
}

#[test]
fn raw_from_str_t1_2() {
    let rbv = raw("1");
    assert_eq!(rbv.length(), 1);
    expect_bits(&rbv, &[true]);
}

#[test]
fn raw_from_str_t2_1() {
    let rbv = raw("00");
    assert_eq!(rbv.length(), 2);
    expect_bits(&rbv, &[false, false]);
}

#[test]
fn raw_from_str_t2_2() {
    let rbv = raw("01");
    assert_eq!(rbv.length(), 2);
    expect_bits(&rbv, &[false, true]);
}

#[test]
fn raw_from_str_t2_3() {
    let rbv = raw("10");
    assert_eq!(rbv.length(), 2);
    expect_bits(&rbv, &[true, false]);
}

#[test]
fn raw_from_str_t2_4() {
    let rbv = raw("11");
    assert_eq!(rbv.length(), 2);
    expect_bits(&rbv, &[true, true]);
}

#[test]
fn raw_from_str_t8_1() {
    let rbv = raw("00000000");
    assert_eq!(rbv.length(), 8);
    expect_bits(&rbv, &[false, false, false, false, false, false, false, false]);
}

#[test]
fn raw_from_str_t8_2() {
    let rbv = raw("11111111");
    assert_eq!(rbv.length(), 8);
    expect_bits(&rbv, &[true, true, true, true, true, true, true, true]);
}

#[test]
fn raw_from_str_t8_3() {
    let rbv = raw("01010101");
    assert_eq!(rbv.length(), 8);
    expect_bits(&rbv, &[false, true, false, true, false, true, false, true]);
}

#[test]
fn raw_from_str_t9_1() {
    let rbv = raw("000000000");
    assert_eq!(rbv.length(), 9);
    expect_bits(&rbv, &[false, false, false, false, false, false, false, false, false]);
}

#[test]
fn raw_from_str_t9_2() {
    let rbv = raw("111111111");
    assert_eq!(rbv.length(), 9);
    expect_bits(&rbv, &[true, true, true, true, true, true, true, true, true]);
}

#[test]
fn raw_from_str_t9_3() {
    let rbv = raw("101010101");
    assert_eq!(rbv.length(), 9);
    expect_bits(&rbv, &[true, false, true, false, true, false, true, false, true]);
}

#[test]
fn raw_popcount_t1_1() {
    assert_eq!(raw("0").popcount(), 0);
}

#[test]
fn raw_popcount_t8_1() {
    assert_eq!(raw("00000000").popcount(), 0);
}

#[test]
fn raw_popcount_t8_2() {
    assert_eq!(raw("01010101").popcount(), 4);
}

#[test]
fn raw_popcount_t8_3() {
    assert_eq!(raw("10101010").popcount(), 4);
}

#[test]
fn raw_popcount_t8_4() {
    assert_eq!(raw("11111111").popcount(), 8);
}

#[test]
fn raw_popcount_t9_1() {
    assert_eq!(raw("000000000").popcount(), 0);
}

#[test]
fn raw_popcount_t9_2() {
    assert_eq!(raw("010101010").popcount(), 4);
}

#[test]
fn raw_popcount_t9_3() {
    assert_eq!(raw("101010101").popcount(), 5);
}

#[test]
fn raw_popcount_t9_4() {
    assert_eq!(raw("111111111").popcount(), 9);
}

#[test]
fn raw_set_bit_t1_1() {
    let rbv = raw("0");
    expect_bits(&rbv, &[false]);
}

#[test]
fn raw_set_bit_t1_2() {
    let mut rbv = raw("0");
    rbv.set_bit(0);
    expect_bits(&rbv, &[true]);
}

#[test]
fn raw_set_bit_t1_3() {
    let mut rbv = raw("0");
    rbv.set_bit(0);
    rbv.set_bit(0);
    expect_bits(&rbv, &[true]);
}

#[test]
fn raw_set_bit_t1_4() {
    let mut rbv = raw("1");
    rbv.set_bit(0);
    expect_bits(&rbv, &[true]);
}

#[test]
fn raw_set_bit_t8_1() {
    let rbv = raw("00000000");
    expect_bits(&rbv, &[false, false, false, false, false, false, false, false]);
}

#[test]
fn raw_set_bit_t8_2() {
    let mut rbv = raw("00000000");
    rbv.set_bit(0);
    rbv.set_bit(2);
    rbv.set_bit(4);
    rbv.set_bit(6);
    expect_bits(&rbv, &[true, false, true, false, true, false, true, false]);
}

#[test]
fn raw_set_bit_t9_1() {
    let rbv = raw("000000000");
    expect_bits(&rbv, &[false, false, false, false, false, false, false, false, false]);
}

#[test]
fn raw_set_bit_t9_2() {
    let mut rbv = raw("000000000");
    rbv.set_bit(0);
    rbv.set_bit(2);
    rbv.set_bit(4);
    rbv.set_bit(6);
    rbv.set_bit(8);
    expect_bits(&rbv, &[true, false, true, false, true, false, true, false, true]);
}

#[test]
fn raw_copy_sub_t1_1() {
    let copied = raw("0").copy_sub(0, 1);
    let expected = [false];
    assert_eq!(copied.length(), expected.len() as u64);
    expect_bits(&copied, &expected);
}

#[test]
fn raw_copy_sub_t8_1_1() {
    let copied = raw("01010101").copy_sub(0, 1);
    let expected = [false];
    assert_eq!(copied.length(), expected.len() as u64);
    expect_bits(&copied, &expected);
}

#[test]
fn raw_copy_sub_t8_1_2() {
    let copied = raw("01010101").copy_sub(0, 2);
    let expected = [false, true];
    assert_eq!(copied.length(), expected.len() as u64);
    expect_bits(&copied, &expected);
}

#[test]
fn raw_copy_sub_t8_1_3() {
    let copied = raw("01010101").copy_sub(0, 3);
    let expected = [false, true, false];
    assert_eq!(copied.length(), expected.len() as u64);
    expect_bits(&copied, &expected);
}

#[test]
fn raw_copy_sub_t8_1_4() {
    let copied = raw("01010101").copy_sub(0, 4);
    let expected = [false, true, false, true];
    assert_eq!(copied.length(), expected.len() as u64);
    expect_bits(&copied, &expected);
}

#[test]
fn raw_copy_sub_t8_1_5() {
    let copied = raw("01010101").copy_sub(0, 5);
    let expected = [false, true, false, true, false];
    assert_eq!(copied.length(), expected.len() as u64);
    expect_bits(&copied, &expected);
}

#[test]
fn raw_copy_sub_t8_1_6() {
    let copied = raw("01010101").copy_sub(0, 6);
    let expected = [false, true, false, true, false, true];
    assert_eq!(copied.length(), expected.len() as u64);
    expect_bits(&copied, &expected);
}

#[test]
fn raw_copy_sub_t8_1_7() {
    let copied = raw("01010101").copy_sub(0, 7);
    let expected = [false, true, false, true, false, true, false];
    assert_eq!(copied.length(), expected.len() as u64);
    expect_bits(&copied, &expected);
}

#[test]
fn raw_copy_sub_t8_1_8() {
    let copied = raw("01010101").copy_sub(0, 8);
    let expected = [false, true, false, true, false, true, false, true];
    assert_eq!(copied.length(), expected.len() as u64);
    expect_bits(&copied, &expected);
}

#[test]
fn raw_copy_sub_t8_2_1() {
    let copied = raw("01010101").copy_sub(7, 1);
    let expected = [true];
    assert_eq!(copied.length(), expected.len() as u64);
    expect_bits(&copied, &expected);
}

#[test]
fn raw_copy_sub_t9_1_1() {
    let copied = raw("010101010").copy_sub(0, 1);
    let expected = [false];
    assert_eq!(copied.length(), expected.len() as u64);
    expect_bits(&copied, &expected);
}

#[test]
fn raw_copy_sub_t9_1_2() {
    let copied = raw("010101010").copy_sub(0, 2);
    let expected = [false, true];
    assert_eq!(copied.length(), expected.len() as u64);
    expect_bits(&copied, &expected);
}

#[test]
fn raw_copy_sub_t9_1_3() {
    let copied = raw("010101010").copy_sub(0, 3);
    let expected = [false, true, false];
    assert_eq!(copied.length(), expected.len() as u64);
    expect_bits(&copied, &expected);
}

#[test]
fn raw_copy_sub_t9_1_4() {
    let copied = raw("010101010").copy_sub(0, 4);
    let expected = [false, true, false, true];
    assert_eq!(copied.length(), expected.len() as u64);
    expect_bits(&copied, &expected);
}

#[test]
fn raw_copy_sub_t9_1_5() {
    let copied = raw("010101010").copy_sub(0, 5);
    let expected = [false, true, false, true, false];
    assert_eq!(copied.length(), expected.len() as u64);
    expect_bits(&copied, &expected);
}

#[test]
fn raw_copy_sub_t9_1_6() {
    let copied = raw("010101010").copy_sub(0, 6);
    let expected = [false, true, false, true, false, true];
    assert_eq!(copied.length(), expected.len() as u64);
    expect_bits(&copied, &expected);
}

#[test]
fn raw_copy_sub_t9_1_7() {
    let copied = raw("010101010").copy_sub(0, 7);
    let expected = [false, true, false, true, false, true, false];
    assert_eq!(copied.length(), expected.len() as u64);
    expect_bits(&copied, &expected);
}

#[test]
fn raw_copy_sub_t9_1_8() {
    let copied = raw("010101010").copy_sub(0, 8);
    let expected = [false, true, false, true, false, true, false, true];
    assert_eq!(copied.length(), expected.len() as u64);
    expect_bits(&copied, &expected);
}

#[test]
fn raw_copy_sub_t9_1_9() {
    let copied = raw("010101010").copy_sub(0, 9);
    let expected = [false, true, false, true, false, true, false, true, false];
    assert_eq!(copied.length(), expected.len() as u64);
    expect_bits(&copied, &expected);
}

#[test]
fn raw_copy_sub_t9_2_1() {
    let copied = raw("010101010").copy_sub(7, 1);
    let expected = [true];
    assert_eq!(copied.length(), expected.len() as u64);
    expect_bits(&copied, &expected);
}

#[test]
fn raw_copy_sub_t9_2_2() {
    let copied = raw("010101010").copy_sub(7, 2);
    let expected = [true, false];
    assert_eq!(copied.length(), expected.len() as u64);
    expect_bits(&copied, &expected);
}

#[test]
fn raw_copy_sub_t9_3_1() {
    let copied = raw("010101010").copy_sub(8, 1);
    let expected = [false];
    assert_eq!(copied.length(), expected.len() as u64);
    expect_bits(&copied, &expected);
}

#[test]
fn raw_copy_sub_every_range_of_a_mixed_vector() {
    let text = "1011001110001111_0000101101_1100101011110000_1";
    let bits = to_bools(text);
    let rbv = raw(text);
    let n = bits.len();
    for i in 0..n {
        for size in 1..=(n - i) {
            let copied = rbv.copy_sub(i as u64, size as u64);
            assert_eq!(copied.length(), size as u64);
            expect_bits(&copied, &bits[i..i + size]);
            let ones = bits[i..i + size].iter().filter(|b| **b).count() as u64;
            assert_eq!(copied.popcount(), ones);
        }
    }
}

#[test]
fn raw_copy_sub_of_all_ones_clears_the_padding() {
    let rbv = raw("11111111_11111111_11111111");
    for i in 0..24u64 {
        for size in 1..=(24 - i) {
            assert_eq!(rbv.copy_sub(i, size).popcount(), size);
        }
    }
}

#[test]
fn raw_popcount_counts_every_byte_value() {
    for byte in 0..=255u32 {
        let mut rbv = RawBitVector::from_length(8);
        for k in 0..8u64 {
            if byte & (0x80 >> k) != 0 {
                rbv.set_bit(k);
            }
        }
        assert_eq!(rbv.popcount(), byte.count_ones() as u64);
    }
}

#[test]
fn raw_set_bit_twice_is_set_bit_once() {
    let mut once = raw("0100_0000_01");
    once.set_bit(7);
    let mut twice = raw("0100_0000_01");
    twice.set_bit(7);
    twice.set_bit(7);
    for i in 0..10 {
        assert_eq!(once.access(i), twice.access(i));
    }
    assert_eq!(twice.popcount(), 3);
}

#[test]
fn raw_as_u32_is_left_aligned() {
    assert_eq!(raw("1").as_u32(), 0x8000_0000);
    assert_eq!(raw("0").as_u32(), 0);
    assert_eq!(raw("101").as_u32(), 0xA000_0000);
    assert_eq!(raw("11111111").as_u32(), 0xFF00_0000);
    assert_eq!(raw("00000000_1").as_u32(), 0x0080_0000);
    assert_eq!(raw("10000001_01000010_00100100_00011000").as_u32(), 0x8142_2418);
    assert_eq!(raw("1111_0000_1111_0000_1111_0000_1111_000").as_u32(), 0xF0F0_F0F0);
}

#[test]
fn raw_as_u32_of_a_sub_range() {
    let rbv = raw("00000111_01100000");
    assert_eq!(rbv.copy_sub(5, 6).as_u32(), 0b111011 << 26);
}

#[test]
fn raw_length_at_byte_boundaries() {
    for n in [1u64, 7, 8, 9, 15, 16, 17, 63, 64, 65] {
        let rbv = RawBitVector::from_length(n);
        assert_eq!(rbv.length(), n);
        assert_eq!(rbv.popcount(), 0);
    }
}
