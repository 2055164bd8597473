use ber_tlv::common::TagClass;
use ber_tlv::parse::{decode, DecodeError};
use ber_tlv::structure::{StructureTag, PL};
use ber_tlv::write::encode;

fn prim(class: TagClass, id: u64, v: Vec<u8>) -> StructureTag {
    StructureTag {
        class,
        id,
        payload: PL::P(v),
    }
}

fn cons(class: TagClass, id: u64, v: Vec<StructureTag>) -> StructureTag {
    StructureTag {
        class,
        id,
        payload: PL::C(v),
    }
}

#[test]
fn decode_integer() {
    let (t, n) = decode(&[0x02, 0x02, 0x06, 0x50, 0xEE]).unwrap();
    assert_eq!(n, 4);
    assert!(t == prim(TagClass::Universal, 2, vec![0x06, 0x50]));
}

#[test]
fn decode_nested() {
    let bytes = [48, 14, 4, 12, 72, 101, 108, 108, 111, 32, 87, 111, 114, 108, 100, 33];
    let (t, n) = decode(&bytes).unwrap();
    assert_eq!(n, bytes.len());
    let expected = cons(
        TagClass::Universal,
        16,
        vec![prim(TagClass::Universal, 4, b"Hello World!".to_vec())],
    );
    assert!(t == expected);
}

#[test]
fn round_trip_of_a_tree() {
    let tree = cons(
        TagClass::Universal,
        16,
        vec![
            prim(TagClass::Universal, 2, vec![1]),
            cons(
                TagClass::Application,
                0,
                vec![
                    prim(TagClass::Universal, 2, vec![3]),
                    prim(TagClass::Context, 0, b"asdf".to_vec()),
                    prim(TagClass::Private, 4000, vec![9u8; 200]),
                    cons(TagClass::Context, 31, vec![]),
                ],
            ),
        ],
    );
    let bytes = encode(&tree);
    let (back, n) = decode(&bytes).unwrap();
    assert_eq!(n, bytes.len());
    assert!(back == tree);
}

#[test]
fn round_trip_of_large_tag_numbers() {
    for id in [0u64, 30, 31, 127, 128, 16383, 16384, u64::MAX] {
        let tree = prim(TagClass::Application, id, vec![0xAB]);
        let bytes = encode(&tree);
        let (back, n) = decode(&bytes).unwrap();
        assert_eq!(n, bytes.len());
        assert_eq!(back.id, id);
        assert!(back == tree);
    }
}

#[test]
fn extended_tag_marker_alone_is_truncated() {
    assert_eq!(decode(&[0x1F]).err(), Some(DecodeError::TruncatedInput));
    assert_eq!(decode(&[0x1F, 0x81]).err(), Some(DecodeError::TruncatedInput));
}

#[test]
fn empty_input_is_truncated() {
    assert_eq!(decode(&[]).err(), Some(DecodeError::TruncatedInput));
}

#[test]
fn missing_length_is_truncated() {
    assert_eq!(decode(&[0x04]).err(), Some(DecodeError::TruncatedInput));
    assert_eq!(decode(&[0x04, 0x82, 0x01]).err(), Some(DecodeError::TruncatedInput));
}

#[test]
fn short_payload_is_truncated() {
    assert_eq!(decode(&[0x04, 0x03, 0x41, 0x42]).err(), Some(DecodeError::TruncatedInput));
}

#[test]
fn constructed_length_shorter_than_children() {
    assert_eq!(
        decode(&[0x30, 0x03, 0x04, 0x02, 0x41, 0x42]).err(),
        Some(DecodeError::TrailingBytesInConstructedValue)
    );
}

#[test]
fn child_header_cut_by_region_is_truncated() {
    assert_eq!(
        decode(&[0x30, 0x01, 0x04, 0x00]).err(),
        Some(DecodeError::TruncatedInput)
    );
}

#[test]
fn indefinite_length_is_refused() {
    assert_eq!(
        decode(&[0x30, 0x80, 0x00, 0x00]).err(),
        Some(DecodeError::UnsupportedIndefiniteLength)
    );
}

#[test]
fn huge_tag_number_overflows() {
    let bytes = [0x1F, 0x82, 0x80, 0x80, 0x80, 0x80, 0x80, 0x80, 0x80, 0x80, 0x00, 0x00];
    assert_eq!(decode(&bytes).err(), Some(DecodeError::TagOverflow));
}

#[test]
fn huge_length_overflows() {
    let bytes = [0x04, 0x89, 0x01, 0, 0, 0, 0, 0, 0, 0, 0];
    assert_eq!(decode(&bytes).err(), Some(DecodeError::LengthOverflow));
}

#[test]
fn non_minimal_forms_are_accepted() {
    let (t, n) = decode(&[0x1F, 0x80, 0x02, 0x82, 0x00, 0x01, 0x07]).unwrap();
    assert_eq!(n, 7);
    assert!(t == prim(TagClass::Universal, 2, vec![0x07]));
}
