use vcddiff::FourStateBit;

#[test]
fn single_char_maps_recognized_characters() {
    assert_eq!(FourStateBit::from_char('0'), FourStateBit::Bit0);
    assert_eq!(FourStateBit::from_char('1'), FourStateBit::Bit1);
    assert_eq!(FourStateBit::from_char('x'), FourStateBit::BitX);
    assert_eq!(FourStateBit::from_char('z'), FourStateBit::BitZ);
}

#[test]
fn single_char_defaults_to_x() {
    assert_eq!(FourStateBit::from_char('q'), FourStateBit::BitX);
    assert_eq!(FourStateBit::from_char('7'), FourStateBit::BitX);
    assert_eq!(FourStateBit::from_char(' '), FourStateBit::BitX);
    assert_eq!(FourStateBit::from_char('X'), FourStateBit::BitX);
}

#[test]
fn single_char_string_uses_single_bit_states() {
    assert_eq!(
        FourStateBit::from_string("1".to_string()),
        FourStateBit::Bit1
    );
    assert_eq!(
        FourStateBit::from_string("z".to_string()),
        FourStateBit::BitZ
    );
}

#[test]
fn nibble_packing_is_bit_reversed() {
    assert_eq!(
        FourStateBit::from_string("0001".to_string()),
        FourStateBit::MultiDeterminate("0x8".to_string())
    );
    assert_eq!(
        FourStateBit::from_string("1000".to_string()),
        FourStateBit::MultiDeterminate("0x1".to_string())
    );
}

#[test]
fn classification_precedence_x_over_z_over_hex() {
    assert_eq!(
        FourStateBit::from_string("01x1".to_string()),
        FourStateBit::MultiX("01x1".to_string())
    );
    assert_eq!(
        FourStateBit::from_string("01z1".to_string()),
        FourStateBit::MultiZ("01z1".to_string())
    );
    assert_eq!(
        FourStateBit::from_string("0101".to_string()),
        FourStateBit::MultiDeterminate("0xA".to_string())
    );
    assert_eq!(
        FourStateBit::from_string("zxz0".to_string()),
        FourStateBit::MultiX("zxz0".to_string())
    );
}

#[test]
fn classification_accepts_uppercase_x_and_z() {
    assert_eq!(
        FourStateBit::from_string("01X1".to_string()),
        FourStateBit::MultiX("01X1".to_string())
    );
    assert_eq!(
        FourStateBit::from_string("01Z1".to_string()),
        FourStateBit::MultiZ("01Z1".to_string())
    );
}

#[test]
fn packing_pads_at_most_significant_end() {
    // "11000" is padded to "00011000"; the chunks "0001" and "1000" read
    // bit-reversed give 8 and 1.
    assert_eq!(
        FourStateBit::from_string("11000".to_string()),
        FourStateBit::MultiDeterminate("0x81".to_string())
    );
}

#[test]
fn to_bit_is_defined_for_determinate_single_bits_only() {
    assert_eq!(FourStateBit::Bit0.to_bit(), Some(0));
    assert_eq!(FourStateBit::Bit1.to_bit(), Some(1));
    assert_eq!(FourStateBit::BitX.to_bit(), None);
    assert_eq!(FourStateBit::BitZ.to_bit(), None);
    assert_eq!(
        FourStateBit::MultiDeterminate("0x8".to_string()).to_bit(),
        None
    );
}
