use std::collections::hash_map::DefaultHasher;
use std::hash::Hash;
use std::hash::Hasher;

use cxx_string_view::CxxStringView;

fn hash_of<T: Hash + ?Sized>(value: &T) -> u64 {
    let mut hasher = DefaultHasher::new();
    value.hash(&mut hasher);
    hasher.finish()
}

#[test]
fn equality_goes_by_content_not_by_buffer() {
    let buf_a = b"same content".to_vec();
    let buf_b = b"same content".to_vec();
    let va = CxxStringView::new(buf_a.as_slice());
    let vb = CxxStringView::new(buf_b.as_slice());

    assert!(va == vb);
    assert!(vb == va);
    assert!(va == va);
    assert_eq!(hash_of(&va), hash_of(&vb));

    // the hash goes by the byte content, as hashing the bytes themselves would
    let bytes: &[u8] = b"same content";
    assert_eq!(hash_of(&va), hash_of(bytes));

    let vc = CxxStringView::new(&b"other content"[..]);
    assert!(va != vc);
}

#[test]
fn equality_with_text_is_symmetric() {
    let sv = CxxStringView::new(&b"both ways"[..]);
    assert!(sv == *"both ways");
    assert!(*"both ways" == sv);
    assert!(sv != *"neither way");
    assert!(*"neither way" != sv);
}

#[test]
fn ordering_is_byte_lexicographic() {
    assert!(CxxStringView::new(b"a".as_slice()) < CxxStringView::new(b"b".as_slice()));
    assert!(CxxStringView::new(b"ab".as_slice()) < CxxStringView::new(b"abc".as_slice()));
    assert!(CxxStringView::new(b"abd".as_slice()) > CxxStringView::new(b"abc".as_slice()));
    assert!(CxxStringView::empty() <= CxxStringView::new(b"".as_slice()));
    assert!(CxxStringView::empty() < CxxStringView::new(&[0x00][..]));

    // ties with the native ordering of the byte slices themselves
    let cases: &[&[u8]] = &[b"", b"a", b"ab", b"b", &[0xff], &[0x00, 0xff]];
    for x in cases {
        for y in cases {
            let vx = CxxStringView::new(*x);
            let vy = CxxStringView::new(*y);
            assert_eq!(vx.partial_cmp(&vy), Some(x.cmp(y)));
            assert_eq!(vx.cmp(&vy), x.cmp(y));
        }
    }
}

#[test]
fn total_order_sorts_views_like_their_bytes() {
    let mut views = vec![
        CxxStringView::new(b"pear".as_slice()),
        CxxStringView::new(b"apple".as_slice()),
        CxxStringView::new(b"peach".as_slice()),
        CxxStringView::new(b"".as_slice()),
    ];
    views.sort();
    let sorted: Vec<&[u8]> = views.iter().map(|v| v.as_bytes()).collect();
    assert_eq!(sorted, vec![b"".as_slice(), b"apple".as_slice(), b"peach".as_slice(), b"pear".as_slice()]);
}
