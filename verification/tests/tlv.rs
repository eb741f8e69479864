use ndn_face_wireless::tlv::read_var_number;

#[test]
fn numbers_come_in_four_widths() {
    assert_eq!(read_var_number(&[]), None);
    assert_eq!(read_var_number(&[0]), Some((0, 0)));
    assert_eq!(read_var_number(&[252, 9, 9]), Some((252, 2)));
    assert_eq!(read_var_number(&[253, 1, 2]), Some((0x0102, 0)));
    assert_eq!(read_var_number(&[254, 1, 2, 3, 4, 9]), Some((0x0102_0304, 1)));
    assert_eq!(read_var_number(&[255; 9]), Some((u64::MAX, 0)));
    assert_eq!(
        read_var_number(&[255, 1, 2, 3, 4, 5, 6, 7, 8]),
        Some((0x0102_0304_0506_0708, 0))
    );
}

#[test]
fn a_number_cut_short_is_none() {
    assert_eq!(read_var_number(&[253, 1]), None);
    assert_eq!(read_var_number(&[254, 1, 2, 3]), None);
    assert_eq!(read_var_number(&[255, 1, 2, 3, 4, 5, 6, 7]), None);
}
