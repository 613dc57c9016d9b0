use cxx_string_view::CxxStringView;

#[test]
fn new_then_as_bytes_returns_the_same_bytes() {
    let cases: Vec<Vec<u8>> = vec![
        vec![],
        vec![0x00],
        vec![0x61, 0x00, 0x62],
        b"plain ascii".to_vec(),
        vec![0xff, 0xfe, 0x00, 0x80],
        "héllo ☃ 🦀".as_bytes().to_vec(),
    ];
    for case in &cases {
        let sv = CxxStringView::new(case.as_slice());
        assert_eq!(sv.as_bytes(), case.as_slice());
        assert_eq!(sv.len(), case.len());
        assert_eq!(sv.is_empty(), case.is_empty());
    }
}

#[test]
fn empty_view_has_length_zero() {
    let sv = CxxStringView::empty();
    assert_eq!(sv.len(), 0);
    assert!(sv.is_empty());
    assert_eq!(sv.as_bytes(), &[] as &[u8]);
    assert_eq!(sv.to_str().unwrap(), "");
}

#[test]
fn embedded_zero_bytes_are_kept() {
    let bytes: &[u8] = &[0x61, 0x00, 0x62, 0x00];
    let sv = CxxStringView::new(bytes);
    assert_eq!(sv.len(), 4);
    assert_eq!(sv.as_bytes(), bytes);
    assert_eq!(sv.to_str().unwrap(), "a\0b\0");
}
