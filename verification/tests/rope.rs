use byte_rope::builder::{RopeBuilder, STATIC_INLINE_THRESHOLD};
use byte_rope::rope::{Rope, RopeElem, RopeError};

#[test]
fn empty_build_without_pushes() {
    let empty = RopeBuilder::default().build();
    let mut reader = empty.read();
    assert!(reader.next().is_none());
}

#[test]
fn empty_build_with_empty_static_push() {
    let mut builder = RopeBuilder::default();
    builder.push_static_bytes(b"");

    let empty = builder.build();
    let mut reader = empty.read();
    assert!(reader.next().is_none());
}

#[test]
fn empty_build_with_empty_bytes_push() {
    let mut builder = RopeBuilder::default();
    builder.push_bytes(&[]);

    let empty = builder.build();
    let mut reader = empty.read();
    assert!(reader.next().is_none());
}

#[test]
fn empty_build_with_empty_concat() {
    let mut builder = RopeBuilder::default();
    builder.concat(&RopeBuilder::default().build());

    let empty = builder.build();
    let mut reader = empty.read();
    assert!(reader.next().is_none());
}

#[test]
fn empty_from_empty_static_str() {
    let empty = Rope::from_static_str("");
    let mut reader = empty.read();
    assert!(reader.next().is_none());
}

#[test]
fn empty_from_empty_string() {
    let empty = Rope::from_string("".to_string());
    let mut reader = empty.read();
    assert!(reader.next().is_none());
}

#[test]
fn all_empty_ropes_agree() {
    // Built four different ways, an empty rope has length zero, an empty
    // reader, one hash, and equal content.
    let a = RopeBuilder::default().build();
    let mut b1 = RopeBuilder::default();
    b1.push_static_bytes(b"");
    let b = b1.build();
    let mut c1 = RopeBuilder::default();
    c1.push_bytes(&[]);
    let c = c1.build();
    let mut d1 = RopeBuilder::default();
    d1.concat(&a.clone());
    let d = d1.build();
    let e = Rope::from_static_str("");

    for r in [&a, &b, &c, &d, &e] {
        assert_eq!(r.len(), 0);
        assert!(r.is_empty());
        assert!(r.read().next().is_none());
        assert_eq!(r.deterministic_hash(), a.deterministic_hash());
        assert!(r.content_eq(&a));
    }
}

#[test]
fn single_string_rope() {
    let r = Rope::from_string("hello".to_owned());
    assert_eq!(r.len(), 5);
    let mut reader = r.read();
    let chunk = reader.next().expect("one leaf");
    assert_eq!(&chunk[..], b"hello");
    assert!(reader.next().is_none());
    assert_eq!(r.to_str().unwrap(), "hello");
}

#[test]
fn small_static_pushes_coalesce_to_one_owned_leaf() {
    // All three pushes are below the inline threshold, so they end up
    // coalesced into a single owned leaf.
    assert!(STATIC_INLINE_THRESHOLD > 11);
    let mut builder = RopeBuilder::default();
    builder.push_static_bytes(b"foo");
    builder.push_static_bytes(b"bar-success");
    builder.push_static_bytes(b"baz");
    let r = builder.build();

    assert_eq!(r.len(), 17);
    assert_eq!(r.data.0.len(), 1);
    match &r.data.0[0] {
        RopeElem::Local(b) => assert_eq!(&b[..], b"foobar-successbaz"),
        RopeElem::Shared(_) => panic!("expected a single owned leaf"),
    }

    let flat = Rope::from_static_str("foobar-successbaz");
    assert!(r.content_eq(&flat));
    assert_eq!(r.deterministic_hash(), flat.deterministic_hash());
}

#[test]
fn small_static_push_shares_leaf_with_adjacent_owned_push() {
    let mut builder = RopeBuilder::default();
    builder.push_static_bytes(b"ab");
    builder.push_bytes(b"cd");
    let r = builder.build();
    assert_eq!(r.data.0.len(), 1);
    match &r.data.0[0] {
        RopeElem::Local(b) => assert_eq!(&b[..], b"abcd"),
        RopeElem::Shared(_) => panic!("expected a single owned leaf"),
    }
}

static LONG_STATIC: &[u8] = b"a-static-buffer-well-over-the-inline-threshold-in-length";

#[test]
fn large_static_push_aliases_the_static_memory() {
    assert!(LONG_STATIC.len() >= STATIC_INLINE_THRESHOLD);
    let mut builder = RopeBuilder::default();
    builder.push_static_bytes(LONG_STATIC);
    let r = builder.build();
    assert_eq!(r.data.0.len(), 1);
    match &r.data.0[0] {
        RopeElem::Local(b) => {
            assert_eq!(&b[..], LONG_STATIC);
            // Zero copy: the leaf points at the static bytes themselves.
            assert_eq!(b.as_ptr(), LONG_STATIC.as_ptr());
        }
        RopeElem::Shared(_) => panic!("expected a leaf"),
    }
}

#[test]
fn concat_produces_leaf_branch_leaf() {
    let mut a = RopeBuilder::default();
    a.push_static_bytes(b"abc");
    let x = a.build();
    assert_eq!(x.len(), 3);

    let mut b = RopeBuilder::default();
    b.push_static_bytes(b"xyz");
    b.concat(&x);
    b.push_static_bytes(b"!");
    let r = b.build();

    assert_eq!(r.len(), 7);
    assert_eq!(r.data.0.len(), 3);
    assert!(matches!(&r.data.0[0], RopeElem::Local(_)));
    assert!(matches!(&r.data.0[1], RopeElem::Shared(_)));
    assert!(matches!(&r.data.0[2], RopeElem::Local(_)));

    let mut reader = r.read();
    assert_eq!(&reader.next().unwrap()[..], b"xyz");
    assert_eq!(&reader.next().unwrap()[..], b"abc");
    assert_eq!(&reader.next().unwrap()[..], b"!");
    assert!(reader.next().is_none());

    assert_eq!(r.to_str().unwrap(), "xyzabc!");
    let flat = Rope::from_static_str("xyzabc!");
    assert!(r.content_eq(&flat));
    assert_eq!(r.deterministic_hash(), flat.deterministic_hash());
}

#[test]
fn clone_is_byte_equal_with_identical_hash() {
    let mut builder = RopeBuilder::default();
    builder.push_bytes(b"some contents");
    let r = builder.build();
    let c = r.clone();
    assert!(c.content_eq(&r));
    assert_eq!(c.deterministic_hash(), r.deterministic_hash());
    assert_eq!(c.len(), r.len());
}

#[test]
fn equality_ignores_tree_shape() {
    // One flat leaf versus a three-segment tree over the same bytes.
    let mut a = RopeBuilder::default();
    a.push_bytes(b"shared middle");
    let mid = a.build();

    let mut b = RopeBuilder::default();
    b.push_static_bytes(b"head-");
    b.concat(&mid);
    b.push_static_bytes(b"-tail");
    let tree = b.build();

    let flat = Rope::from_string("head-shared middle-tail".to_string());
    assert!(tree.content_eq(&flat));
    assert!(flat.content_eq(&tree));
    assert_eq!(tree.deterministic_hash(), flat.deterministic_hash());

    let other = Rope::from_string("head-shared middle-tail!".to_string());
    assert!(!tree.content_eq(&other));
}

#[test]
fn length_equals_full_drain() {
    let mut b = RopeBuilder::default();
    b.push_bytes(b"0123456789");
    b.concat(&Rope::from_static_str("abcdef"));
    let r = b.build();
    assert_eq!(r.len(), 16);

    let mut total = 0usize;
    let mut reader = r.read();
    while let Some(chunk) = reader.next() {
        assert!(!chunk.is_empty());
        total += chunk.len();
    }
    assert_eq!(total, r.len());
}

#[test]
fn reads_agree_for_every_buffer_size() {
    let mut b = RopeBuilder::default();
    b.push_static_bytes(b"first part ");
    b.concat(&Rope::from_string("second part ".to_string()));
    b.push_bytes(b"third part");
    let r = b.build();
    let flat = r.to_bytes();
    assert_eq!(flat.len(), r.len());

    for want in [1usize, 2, 3, 7, 64] {
        let mut reader = r.read();
        let mut out: Vec<u8> = Vec::new();
        loop {
            let got = reader.read(want, &mut out);
            if got == 0 {
                break;
            }
            assert!(got == want || out.len() == flat.len());
        }
        assert_eq!(out, flat);
    }

    // Lazy slices concatenate to the same sequence.
    let mut lazy: Vec<u8> = Vec::new();
    let mut reader = r.read();
    while let Some(chunk) = reader.next() {
        lazy.extend_from_slice(&chunk[..]);
    }
    assert_eq!(lazy, flat);
}

#[test]
fn peek_is_stable_and_consume_advances() {
    let mut b = RopeBuilder::default();
    b.push_bytes(b"peekable");
    let r = b.build();
    let mut reader = r.read();

    let first = reader.fill_buf();
    let again = reader.fill_buf();
    assert_eq!(&first[..], &again[..]);
    assert_eq!(&first[..], b"peekable");

    reader.consume(4);
    let rest = reader.fill_buf();
    assert_eq!(&rest[..], b"able");
    reader.consume(4);
    let end = reader.fill_buf();
    assert!(end.is_empty());
}

#[test]
fn serialization_round_trip() {
    let mut b = RopeBuilder::default();
    b.push_static_bytes(b"round ");
    b.concat(&Rope::from_string("trip".to_string()));
    let r = b.build();

    // The wire form is the flat byte sequence and nothing else.
    let wire = r.to_bytes();
    assert_eq!(wire, b"round trip".to_vec());

    let back = Rope::from_vec(wire);
    assert!(back.content_eq(&r));
    assert_eq!(back.deterministic_hash(), r.deterministic_hash());
}

#[test]
fn to_str_rejects_invalid_utf8() {
    let r = Rope::from_vec(vec![0xff, 0xfe, 0x01]);
    assert_eq!(r.to_str(), Err(RopeError::Encoding));
}

#[test]
fn builder_len_counts_pending_and_committed() {
    let mut b = RopeBuilder::default();
    assert!(b.is_empty());
    assert_eq!(b.len(), 0);
    b.push_bytes(b"abc");
    assert_eq!(b.len(), 3);
    b.concat(&Rope::from_static_str("defg"));
    assert_eq!(b.len(), 7);
    b.push_static_bytes(b"hi");
    assert_eq!(b.len(), 9);
    assert!(!b.is_empty());
    b.finish();
    assert_eq!(b.len(), 9);
    let r = b.build();
    assert_eq!(r.len(), 9);
    assert_eq!(r.to_str().unwrap(), "abcdefghi");
}

#[test]
fn builder_from_vec_skips_the_copy() {
    let b = RopeBuilder::from_vec(b"prefilled".to_vec());
    assert_eq!(b.len(), 9);
    let r = b.build();
    assert_eq!(r.to_str().unwrap(), "prefilled");
}

#[test]
fn builder_from_static_str_matches_push() {
    let b = RopeBuilder::from_static_str("starter");
    let r = b.build();
    assert_eq!(r.to_str().unwrap(), "starter");
}

#[test]
fn concat_grouping_does_not_change_bytes() {
    let pieces: [&'static [u8]; 3] = [b"alpha-", b"beta-", b"gamma"];

    // Group left: (a + b) then + c.
    let mut left = RopeBuilder::default();
    left.push_static_bytes(pieces[0]);
    left.push_static_bytes(pieces[1]);
    let left_rope = left.build();
    let mut left_all = RopeBuilder::default();
    left_all.concat(&left_rope);
    left_all.push_static_bytes(pieces[2]);
    let l = left_all.build();

    // Group right: a + (b + c).
    let mut right = RopeBuilder::default();
    right.push_static_bytes(pieces[1]);
    right.push_static_bytes(pieces[2]);
    let right_rope = right.build();
    let mut right_all = RopeBuilder::default();
    right_all.push_static_bytes(pieces[0]);
    right_all.concat(&right_rope);
    let r = right_all.build();

    assert!(l.content_eq(&r));
    assert_eq!(l.deterministic_hash(), r.deterministic_hash());
    assert_eq!(l.to_bytes(), b"alpha-beta-gamma".to_vec());
    assert_eq!(r.to_bytes(), b"alpha-beta-gamma".to_vec());
}

#[test]
fn distinct_contents_hash_differently() {
    let a = Rope::from_static_str("a");
    let b = Rope::from_static_str("b");
    assert_ne!(a.deterministic_hash(), b.deterministic_hash());
    assert!(!a.content_eq(&b));

    // Same bytes, different length prefix cannot happen; but same length
    // with different bytes must differ through the content fold.
    let ab = Rope::from_static_str("ab");
    let ba = Rope::from_static_str("ba");
    assert_ne!(ab.deterministic_hash(), ba.deterministic_hash());
}
