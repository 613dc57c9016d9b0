use std::borrow::Cow;

use cxx_string_view::CxxStringView;

#[test]
fn to_str_accepts_valid_utf8() {
    let cases: &[&str] = &["", "ascii only", "héllo", "snow ☃", "crab 🦀", "a\0b"];
    for case in cases {
        let sv = CxxStringView::new(case.as_bytes());
        assert_eq!(sv.to_str(), Ok(*case));
    }
}

#[test]
fn to_str_reports_offset_of_first_invalid_byte() {
    // invalid leading byte at the start
    let sv = CxxStringView::new(&[0xff, 0x61][..]);
    assert_eq!(sv.to_str().unwrap_err().valid_up_to, 0);

    // a bare continuation byte after two ASCII bytes
    let sv = CxxStringView::new(&[0x61, 0x62, 0x80][..]);
    assert_eq!(sv.to_str().unwrap_err().valid_up_to, 2);

    // an always-overlong two-byte lead
    let sv = CxxStringView::new(&[0x61, 0xc0, 0xaf][..]);
    assert_eq!(sv.to_str().unwrap_err().valid_up_to, 1);

    // a truncated three-byte sequence at the end
    let sv = CxxStringView::new(&[0x61, 0xe2, 0x82][..]);
    assert_eq!(sv.to_str().unwrap_err().valid_up_to, 1);

    // a surrogate encoding
    let sv = CxxStringView::new(&[0xed, 0xa0, 0x80][..]);
    assert_eq!(sv.to_str().unwrap_err().valid_up_to, 0);
}

#[test]
fn to_str_offset_matches_std_validation() {
    let cases: Vec<Vec<u8>> = vec![
        vec![0xff],
        vec![0x61, 0xff],
        vec![0xc2],
        vec![0xc2, 0x41],
        vec![0xe0, 0x80, 0x80],
        vec![0xe0, 0xa0],
        vec![0xf0, 0x90, 0x80],
        vec![0xf4, 0x90, 0x80, 0x80],
        vec![0xf5, 0x80],
        vec![b'o', b'k', 0xed, 0xbf, 0xbf],
    ];
    for case in &cases {
        let sv = CxxStringView::new(case.as_slice());
        let expected = std::str::from_utf8(case).unwrap_err().valid_up_to();
        assert_eq!(sv.to_str().unwrap_err().valid_up_to, expected);
    }
}

#[test]
fn lossy_of_valid_utf8_borrows_the_exact_text() {
    let text = "exact text, no copy: ☃";
    let sv = CxxStringView::new(text.as_bytes());
    let lossy = sv.to_string_lossy();
    assert!(matches!(lossy, Cow::Borrowed(_)));
    assert_eq!(lossy.as_ref(), text);
}

#[test]
fn lossy_replaces_each_maximal_invalid_subsequence_once() {
    // two invalid leading bytes: an error at offset 0, and two replacement
    // characters from the lossy conversion
    let sv = CxxStringView::new(&[0xff, 0xfe][..]);
    assert_eq!(sv.to_str().unwrap_err().valid_up_to, 0);
    let lossy = sv.to_string_lossy();
    assert!(matches!(lossy, Cow::Owned(_)));
    assert_eq!(lossy.as_ref(), "\u{fffd}\u{fffd}");

    // a truncated three-byte sequence is one maximal subpart
    let sv = CxxStringView::new(&[0xe2, 0x82, 0x41][..]);
    assert_eq!(sv.to_string_lossy().as_ref(), "\u{fffd}A");

    // an overlong encoding is replaced byte by byte
    let sv = CxxStringView::new(&[0x61, 0xc0, 0xaf, 0x62][..]);
    assert_eq!(sv.to_string_lossy().as_ref(), "a\u{fffd}\u{fffd}b");
}

#[test]
fn lossy_matches_std_replacement_semantics() {
    let cases: Vec<Vec<u8>> = vec![
        vec![],
        b"all valid".to_vec(),
        vec![0xff, 0xfe],
        vec![0x61, 0xf1, 0x80, 0x80, 0xe1, 0x80, 0xc2, 0x62, 0x80, 0x63],
        vec![0xe0, 0x80, 0x80],
        vec![0xf0, 0x9f, 0xa6],
        vec![0xed, 0xa0, 0x80, 0xed, 0xbf, 0xbf],
        vec![0xc2, 0xa3, 0xc2],
        vec![0xf4, 0x8f, 0xbf, 0xbf, 0xf4, 0x90, 0x80, 0x80],
    ];
    for case in &cases {
        let sv = CxxStringView::new(case.as_slice());
        let expected = String::from_utf8_lossy(case);
        assert_eq!(sv.to_string_lossy(), expected);
    }
}
