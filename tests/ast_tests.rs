use aicirt::ast::{
    byteset_256, byteset_contains, byteset_from_range, byteset_set, byteset_union, Expr, ExprRef,
    ExprSet,
};

fn r(id: u32) -> ExprRef {
    ExprRef::new(id)
}

#[test]
fn expr_ref_accessors() {
    let e = ExprRef::new(7);
    assert!(e.is_valid());
    assert_eq!(e.as_u32(), 7);
    assert_eq!(e.as_usize(), 7);
}

#[test]
fn byteset_basics() {
    let mut s = byteset_256();
    assert_eq!(s.len(), 8);
    assert!(!byteset_contains(&s, 65));
    byteset_set(&mut s, 65);
    assert!(byteset_contains(&s, 65));
    assert!(!byteset_contains(&s, 66));
    assert_eq!(s[2], 1 << 1);
    let mut t = byteset_256();
    byteset_set(&mut t, 200);
    byteset_union(&mut s, &t);
    assert!(byteset_contains(&s, 200));
    assert!(byteset_contains(&s, 65));
}

#[test]
fn byteset_range() {
    let s = byteset_from_range(b'a', b'c');
    for b in 0..256usize {
        assert_eq!(byteset_contains(&s, b), (97..=99).contains(&b));
    }
    let one = byteset_from_range(255, 255);
    assert!(byteset_contains(&one, 255));
    assert_eq!(one[7], 1u32 << 31);
}

#[test]
fn new_set_has_the_constants() {
    let set = ExprSet::new(256);
    assert_eq!(set.len(), 5);
    assert_eq!(set.alphabet_size(), 256);
    assert_eq!(set.alphabet_words(), 8);
    assert!(set.is_nullable(r(ExprRef::EMPTY_STRING_ID)));
    assert!(!set.is_nullable(r(ExprRef::NO_MATCH_ID)));
    assert!(!set.is_nullable(r(ExprRef::ANY_BYTE_ID)));
    assert!(set.is_nullable(r(ExprRef::ANY_STRING_ID)));
    assert!(!set.is_nullable(r(ExprRef::NON_EMPTY_STRING_ID)));
    match set.get(r(ExprRef::ANY_STRING_ID)) {
        Expr::Repeat(_, e, 0, u32::MAX) => assert_eq!(e.as_u32(), ExprRef::ANY_BYTE_ID),
        _ => panic!("any string is a repeat"),
    }
    match set.get(r(ExprRef::ANY_BYTE_ID)) {
        Expr::ByteSet(s) => assert!(s.iter().all(|w| *w == u32::MAX)),
        _ => panic!("any byte is a byte set"),
    }
    let small = ExprSet::new(10);
    assert_eq!(small.alphabet_words(), 1);
}

#[test]
fn hash_consing_shares_ids() {
    let mut set = ExprSet::new(256);
    let a1 = set.mk_byte(b'a');
    let a2 = set.mk_byte(b'a');
    let b = set.mk_byte(b'b');
    assert_eq!(a1, a2);
    assert_ne!(a1, b);
    assert_eq!(a1.as_u32(), 6);
    assert_eq!(set.len(), 7);
    assert!(set.get(a1).matches_byte(b'a'));
    assert!(!set.get(a1).matches_byte(b'b'));
    assert!(!set.get(a1).nullable());
}

#[test]
fn byte_set_by_number_of_bits() {
    let mut set = ExprSet::new(256);
    let empty = byteset_256();
    assert_eq!(set.mk_byte_set(&empty).as_u32(), ExprRef::NO_MATCH_ID);
    let mut one = byteset_256();
    byteset_set(&mut one, 120);
    let e = set.mk_byte_set(&one);
    match set.get(e) {
        Expr::Byte(b) => assert_eq!(b, 120),
        _ => panic!("a single byte"),
    }
    let range = byteset_from_range(b'0', b'9');
    let d = set.mk_byte_set(&range);
    match set.get(d) {
        Expr::ByteSet(s) => assert_eq!(s, range),
        _ => panic!("a byte set"),
    }
    assert!(set.get(d).matches_byte(b'5'));
    assert!(!set.get(d).matches_byte(b'a'));
}

#[test]
fn repeat_cases() {
    let mut set = ExprSet::new(256);
    let no = r(ExprRef::NO_MATCH_ID);
    assert_eq!(set.mk_repeat(no, 0, 3).as_u32(), ExprRef::EMPTY_STRING_ID);
    assert_eq!(set.mk_repeat(no, 1, 3).as_u32(), ExprRef::NO_MATCH_ID);
    let a = set.mk_byte(b'a');
    assert_eq!(set.mk_repeat(a, 0, 0).as_u32(), ExprRef::EMPTY_STRING_ID);
    assert_eq!(set.mk_repeat(a, 1, 1), a);
    let rep = set.mk_repeat(a, 2, 5);
    match set.get(rep) {
        Expr::Repeat(f, e, 2, 5) => {
            assert_eq!(e, a);
            assert!(!f.is_nullable());
        }
        _ => panic!("a repeat"),
    }
    let star = set.mk_repeat(r(ExprRef::ANY_BYTE_ID), 0, u32::MAX);
    assert_eq!(star.as_u32(), ExprRef::ANY_STRING_ID);
    let plus = set.mk_repeat(r(ExprRef::ANY_BYTE_ID), 1, u32::MAX);
    assert_eq!(plus.as_u32(), ExprRef::NON_EMPTY_STRING_ID);
    // a nullable body makes the lower bound 0
    let opt = set.mk_repeat(r(ExprRef::ANY_STRING_ID), 3, 4);
    match set.get(opt) {
        Expr::Repeat(f, _, 0, 4) => assert!(f.is_nullable()),
        _ => panic!("a repeat from 0"),
    }
}

#[test]
fn not_cases() {
    let mut set = ExprSet::new(256);
    assert_eq!(set.mk_not(r(ExprRef::EMPTY_STRING_ID)).as_u32(), ExprRef::NON_EMPTY_STRING_ID);
    assert_eq!(set.mk_not(r(ExprRef::NON_EMPTY_STRING_ID)).as_u32(), ExprRef::EMPTY_STRING_ID);
    assert_eq!(set.mk_not(r(ExprRef::ANY_STRING_ID)).as_u32(), ExprRef::NO_MATCH_ID);
    assert_eq!(set.mk_not(r(ExprRef::NO_MATCH_ID)).as_u32(), ExprRef::ANY_STRING_ID);
    let a = set.mk_byte(b'a');
    let na = set.mk_not(a);
    assert!(set.is_nullable(na));
    assert_eq!(set.get_args(na), vec![a]);
    assert_eq!(set.mk_not(na), a);
}

#[test]
fn concat_cases() {
    let mut set = ExprSet::new(256);
    let a = set.mk_byte(b'a');
    let b = set.mk_byte(b'b');
    let eps = r(ExprRef::EMPTY_STRING_ID);
    assert_eq!(set.mk_concat(vec![]).as_u32(), ExprRef::EMPTY_STRING_ID);
    assert_eq!(set.mk_concat(vec![eps, a, eps]), a);
    assert_eq!(set.mk_concat(vec![a, r(ExprRef::NO_MATCH_ID)]).as_u32(), ExprRef::NO_MATCH_ID);
    let ab = set.mk_concat(vec![a, b]);
    assert_eq!(set.get_args(ab), vec![a, b]);
    assert!(!set.is_nullable(ab));
    // nested concatenations are flattened
    let aba = set.mk_concat(vec![ab, a]);
    assert_eq!(set.get_args(aba), vec![a, b, a]);
    let any2 = set.mk_concat(vec![r(ExprRef::ANY_STRING_ID), r(ExprRef::ANY_STRING_ID)]);
    assert!(set.is_nullable(any2));
}

#[test]
fn and_cases() {
    let mut set = ExprSet::new(256);
    let a = set.mk_byte(b'a');
    let b = set.mk_byte(b'b');
    let any = r(ExprRef::ANY_STRING_ID);
    assert_eq!(set.mk_and(vec![]).as_u32(), ExprRef::ANY_STRING_ID);
    assert_eq!(set.mk_and(vec![any, a, any]), a);
    assert_eq!(set.mk_and(vec![a, r(ExprRef::NO_MATCH_ID)]).as_u32(), ExprRef::NO_MATCH_ID);
    assert_eq!(
        set.mk_and(vec![a, r(ExprRef::EMPTY_STRING_ID)]).as_u32(),
        ExprRef::NO_MATCH_ID
    );
    assert_eq!(
        set.mk_and(vec![any, r(ExprRef::EMPTY_STRING_ID), r(ExprRef::ANY_STRING_ID)]).as_u32(),
        ExprRef::EMPTY_STRING_ID
    );
    let ba = set.mk_and(vec![b, a, b]);
    assert_eq!(set.get_args(ba), vec![a, b]);
    let ab = set.mk_and(vec![a, b]);
    assert_eq!(ab, ba);
}

#[test]
fn or_cases() {
    let mut set = ExprSet::new(256);
    let a = set.mk_byte(b'a');
    let b = set.mk_byte(b'b');
    assert_eq!(set.mk_or(vec![]).as_u32(), ExprRef::NO_MATCH_ID);
    assert_eq!(set.mk_or(vec![a, r(ExprRef::NO_MATCH_ID), a]), a);
    assert_eq!(set.mk_or(vec![a, r(ExprRef::ANY_STRING_ID)]).as_u32(), ExprRef::ANY_STRING_ID);
    // two bytes become one byte set
    let ab = set.mk_or(vec![b, a]);
    match set.get(ab) {
        Expr::ByteSet(s) => {
            assert!(byteset_contains(&s, 97));
            assert!(byteset_contains(&s, 98));
            assert!(!byteset_contains(&s, 99));
        }
        _ => panic!("merged into a byte set"),
    }
    // plain operands are kept, sorted by id, with the nullable flag
    let c = set.mk_concat(vec![a, b]);
    let u = set.mk_or(vec![c, r(ExprRef::EMPTY_STRING_ID)]);
    assert_eq!(set.get_args(u), vec![r(ExprRef::EMPTY_STRING_ID), c]);
    assert!(set.is_nullable(u));
    // nested unions are flattened
    let d = set.mk_concat(vec![b, a]);
    let v = set.mk_or(vec![u, d]);
    assert_eq!(set.get_args(v), vec![r(ExprRef::EMPTY_STRING_ID), c, d]);
}

#[test]
fn or_keeps_smallest_lookahead() {
    let mut set = ExprSet::new(256);
    let a = set.mk_byte(b'a');
    let far = set.mk_lookahead(a, 3);
    let near = set.mk_lookahead(a, 1);
    let b = set.mk_byte(b'b');
    let other = set.mk_lookahead(b, 2);
    let u = set.mk_or(vec![far, other, near]);
    let args = set.get_args(u);
    assert_eq!(args.len(), 2);
    assert!(args.contains(&near));
    assert!(args.contains(&other));
    assert!(!args.contains(&far));
}

#[test]
fn lookahead_and_its_length() {
    let mut set = ExprSet::new(256);
    assert_eq!(set.mk_lookahead(r(ExprRef::NO_MATCH_ID), 4).as_u32(), ExprRef::NO_MATCH_ID);
    let l4 = set.mk_lookahead(r(ExprRef::ANY_STRING_ID), 4);
    match set.get(l4) {
        Expr::Lookahead(f, e, 4) => {
            assert!(f.is_nullable());
            assert_eq!(e.as_u32(), ExprRef::EMPTY_STRING_ID);
        }
        _ => panic!("a lookahead"),
    }
    assert_eq!(set.lookahead_len(l4), Some(4));
    let l2 = set.mk_lookahead(r(ExprRef::EMPTY_STRING_ID), 2);
    let a = set.mk_byte(b'a');
    let la = set.mk_lookahead(a, 1);
    assert_eq!(set.lookahead_len(la), None);
    let c = set.mk_concat(vec![a, a]);
    let u = set.mk_or(vec![c, l4]);
    assert_eq!(set.lookahead_len(u), Some(4));
    assert_eq!(set.lookahead_len(c), None);
    let _ = l2;
}

#[test]
fn stored_bytes() {
    // slots: unused, empty string, no match, any byte (1 + 8 words), the two repeats
    let mut set = ExprSet::new(256);
    assert_eq!(set.bytes(), 4 * (0 + 1 + 1 + 9 + 4 + 4));
    set.mk_byte(b'x');
    assert_eq!(set.bytes(), 4 * 21);
}
