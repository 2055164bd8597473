use ber_tlv::common::TagClass;
use ber_tlv::structure::{StructureTag, PL};

#[test]
fn expect_exact() {
    let tag = StructureTag {
        class: TagClass::Application,
        id: 65u64,
        payload: PL::C(vec![StructureTag {
            class: TagClass::Universal,
            id: 2u64,
            payload: PL::P(vec![0x16, 0x16]),
        }]),
    };

    let out = tag
        .clone()
        .match_class(TagClass::Application)
        .and_then(|x| x.match_id(65u64));

    assert_eq!(out, Some(tag));
}

#[test]
fn expect_inner() {
    let tag = StructureTag {
        class: TagClass::Application,
        id: 65u64,
        payload: PL::C(vec![
            StructureTag {
                class: TagClass::Universal,
                id: 2u64,
                payload: PL::P(vec![0x16, 0x16]),
            },
            StructureTag {
                class: TagClass::Application,
                id: 3u64,
                payload: PL::P(vec![0x3, 0x3]),
            },
        ]),
    };

    let mut subt = tag.expect_constructed().unwrap();

    let b = subt
        .pop()
        .unwrap()
        .match_class(TagClass::Application)
        .and_then(|x| x.match_id(3));
    let a = subt
        .pop()
        .unwrap()
        .match_class(TagClass::Universal)
        .and_then(|x| x.match_id(2));

    assert!(a.is_some());
    assert!(b.is_some());
}

#[test]
fn mismatched_class_or_id_gives_nothing() {
    let tag = StructureTag {
        class: TagClass::Context,
        id: 7,
        payload: PL::P(vec![1]),
    };
    assert!(tag.clone().match_class(TagClass::Universal).is_none());
    assert!(tag.clone().match_id(8).is_none());
    assert!(tag.clone().expect_constructed().is_none());
    assert_eq!(tag.expect_primitive(), Some(vec![1]));
}

#[test]
fn primitive_accessor_on_constructed_gives_nothing() {
    let tag = StructureTag {
        class: TagClass::Universal,
        id: 16,
        payload: PL::C(vec![]),
    };
    assert!(tag.clone().expect_primitive().is_none());
    assert_eq!(tag.expect_constructed().map(|v| v.len()), Some(0));
}

#[test]
fn equality_is_structural() {
    let a = StructureTag {
        class: TagClass::Universal,
        id: 16,
        payload: PL::C(vec![StructureTag {
            class: TagClass::Universal,
            id: 4,
            payload: PL::P(vec![1, 2]),
        }]),
    };
    let b = StructureTag {
        class: TagClass::Universal,
        id: 16,
        payload: PL::C(vec![StructureTag {
            class: TagClass::Universal,
            id: 4,
            payload: PL::P(vec![1, 3]),
        }]),
    };
    assert!(a == a.clone());
    assert!(a != b);
}
