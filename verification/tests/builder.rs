use succinct::bit_vector::{BitVectorBuilder, BitVectorString};

fn expect_bits(bv: &succinct::BitVector, expected: &[bool]) {
    for (i, bit) in expected.iter().enumerate() {
        assert_eq!(bv.access(i as u64), *bit);
    }
}

#[test]
fn build() {
    let bv = BitVectorBuilder::from_length(2).build();
    assert_eq!(bv.access(0), false);
    assert_eq!(bv.access(1), false);
}

#[test]
fn build_from_set_bit() {
    let bv = BitVectorBuilder::from_length(2).set_bit(1).build();
    assert_eq!(bv.access(0), false);
    assert_eq!(bv.access(1), true);
}

#[test]
fn build_from_str() {
    let bv = BitVectorBuilder::from_str(BitVectorString::new("101")).build();
    assert_eq!(bv.access(0), true);
    assert_eq!(bv.access(1), false);
    assert_eq!(bv.access(2), true);
}

#[test]
fn build_from_str_with_set_bit() {
    let bv = BitVectorBuilder::from_str(BitVectorString::new("101"))
        .set_bit(0)
        .set_bit(1)
        .build();
    assert_eq!(bv.access(0), true);
    assert_eq!(bv.access(1), true);
    assert_eq!(bv.access(2), true);
}

#[test]
fn build_from_set_bit_on_same_bit_twice() {
    let bv = BitVectorBuilder::from_length(2).set_bit(1).set_bit(1).build();
    assert_eq!(bv.access(0), false);
    assert_eq!(bv.access(1), true);
}

#[test]
fn builder_from_length_t1() {
    expect_bits(&BitVectorBuilder::from_length(1).build(), &[false]);
}

#[test]
fn builder_from_length_t2() {
    expect_bits(&BitVectorBuilder::from_length(2).build(), &[false; 2]);
}

#[test]
fn builder_from_length_t8() {
    expect_bits(&BitVectorBuilder::from_length(8).build(), &[false; 8]);
}

#[test]
fn builder_from_length_t9() {
    expect_bits(&BitVectorBuilder::from_length(9).build(), &[false; 9]);
}

#[test]
fn builder_from_length_t2_pow_16() {
    let bv = BitVectorBuilder::from_length(1 << 16).build();
    assert_eq!(bv.access(0), false);
    assert_eq!(bv.access((1 << 16) - 1), false);
}

#[test]
fn builder_from_length_t2_pow_16_p1() {
    let bv = BitVectorBuilder::from_length((1 << 16) + 1).build();
    assert_eq!(bv.access(0), false);
    assert_eq!(bv.access(1 << 16), false);
}

#[test]
fn builder_from_length_t2_pow_16_m1() {
    let bv = BitVectorBuilder::from_length((1 << 16) - 1).build();
    assert_eq!(bv.access(0), false);
    assert_eq!(bv.access((1 << 16) - 2), false);
}

#[test]
fn builder_from_str_t1_1() {
    let bv = BitVectorBuilder::from_str(BitVectorString::new("0")).build();
    expect_bits(&bv, &[false]);
}

#[test]
fn builder_from_str_t1_2() {
    let bv = BitVectorBuilder::from_str(BitVectorString::new("1")).build();
    expect_bits(&bv, &[true]);
}

#[test]
fn builder_from_str_t2_1() {
    let bv = BitVectorBuilder::from_str(BitVectorString::new("00")).build();
    expect_bits(&bv, &[false, false]);
}

#[test]
fn builder_from_str_t2_2() {
    let bv = BitVectorBuilder::from_str(BitVectorString::new("01")).build();
    expect_bits(&bv, &[false, true]);
}

#[test]
fn builder_from_str_t2_3() {
    let bv = BitVectorBuilder::from_str(BitVectorString::new("10")).build();
    expect_bits(&bv, &[true, false]);
}

#[test]
fn builder_from_str_t2_4() {
    let bv = BitVectorBuilder::from_str(BitVectorString::new("11")).build();
    expect_bits(&bv, &[true, true]);
}

#[test]
fn builder_from_str_t8_1() {
    let bv = BitVectorBuilder::from_str(BitVectorString::new("00000000")).build();
    expect_bits(&bv, &[false, false, false, false, false, false, false, false]);
}

#[test]
fn builder_from_str_t8_2() {
    let bv = BitVectorBuilder::from_str(BitVectorString::new("11111111")).build();
    expect_bits(&bv, &[true, true, true, true, true, true, true, true]);
}

#[test]
fn builder_from_str_t8_3() {
    let bv = BitVectorBuilder::from_str(BitVectorString::new("01010101")).build();
    expect_bits(&bv, &[false, true, false, true, false, true, false, true]);
}

#[test]
fn builder_from_str_t9_1() {
    let bv = BitVectorBuilder::from_str(BitVectorString::new("000000000")).build();
    expect_bits(&bv, &[false, false, false, false, false, false, false, false, false]);
}

#[test]
fn builder_from_str_t9_2() {
    let bv = BitVectorBuilder::from_str(BitVectorString::new("111111111")).build();
    expect_bits(&bv, &[true, true, true, true, true, true, true, true, true]);
}

#[test]
fn builder_from_str_t9_3() {
    let bv = BitVectorBuilder::from_str(BitVectorString::new("101010101")).build();
    expect_bits(&bv, &[true, false, true, false, true, false, true, false, true]);
}

#[test]
fn builder_set_bit_t1_1() {
    let builder = BitVectorBuilder::from_str(BitVectorString::new("0"));
    let bv = builder.build();
    expect_bits(&bv, &[false]);
}

#[test]
fn builder_set_bit_t1_2() {
    let mut builder = BitVectorBuilder::from_str(BitVectorString::new("0"));
    builder.set_bit(0);
    let bv = builder.build();
    expect_bits(&bv, &[true]);
}

#[test]
fn builder_set_bit_t1_3() {
    let mut builder = BitVectorBuilder::from_str(BitVectorString::new("0"));
    builder.set_bit(0);
    builder.set_bit(0);
    let bv = builder.build();
    expect_bits(&bv, &[true]);
}

#[test]
fn builder_set_bit_t1_4() {
    let mut builder = BitVectorBuilder::from_str(BitVectorString::new("1"));
    builder.set_bit(0);
    let bv = builder.build();
    expect_bits(&bv, &[true]);
}

#[test]
fn builder_set_bit_t8_1() {
    let builder = BitVectorBuilder::from_str(BitVectorString::new("00000000"));
    let bv = builder.build();
    expect_bits(&bv, &[false, false, false, false, false, false, false, false]);
}

#[test]
fn builder_set_bit_t8_2() {
    let mut builder = BitVectorBuilder::from_str(BitVectorString::new("00000000"));
    builder.set_bit(0);
    builder.set_bit(2);
    builder.set_bit(4);
    builder.set_bit(6);
    let bv = builder.build();
    expect_bits(&bv, &[true, false, true, false, true, false, true, false]);
}

#[test]
fn builder_set_bit_t9_1() {
    let builder = BitVectorBuilder::from_str(BitVectorString::new("000000000"));
    let bv = builder.build();
    expect_bits(&bv, &[false, false, false, false, false, false, false, false, false]);
}

#[test]
fn builder_set_bit_t9_2() {
    let mut builder = BitVectorBuilder::from_str(BitVectorString::new("000000000"));
    builder.set_bit(0);
    builder.set_bit(2);
    builder.set_bit(4);
    builder.set_bit(6);
    builder.set_bit(8);
    let bv = builder.build();
    expect_bits(&bv, &[true, false, true, false, true, false, true, false, true]);
}
