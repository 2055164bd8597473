use ber_tlv::common::{TagClass, TagStructure};
use ber_tlv::structure::{StructureTag, PL};
use ber_tlv::structures::{Null, OctetString};
use ber_tlv::write::{encode, encode_into, write_length, write_type};

fn integer(v: Vec<u8>) -> StructureTag {
    StructureTag {
        class: TagClass::Universal,
        id: 2,
        payload: PL::P(v),
    }
}

fn sequence(class: TagClass, id: u64, inner: Vec<StructureTag>) -> StructureTag {
    StructureTag {
        class,
        id,
        payload: PL::C(inner),
    }
}

#[test]
fn encode_simple_tag() {
    // The integer 1616 in two's complement is 0x06 0x50.
    let tag = integer(vec![0x06, 0x50]);

    let mut buf = Vec::<u8>::new();
    encode_into(&mut buf, tag);

    assert_eq!(buf, vec![0x2, 0x2, 0x06, 0x50]);
}

#[test]
fn encode_constructed_tag() {
    let tag = sequence(
        TagClass::Universal,
        16,
        vec![OctetString {
            inner: String::from("Hello World!").into_bytes(),
            ..Default::default()
        }
        .into_structure()],
    );

    let mut buf = Vec::<u8>::new();
    encode_into(&mut buf, tag);

    assert_eq!(
        buf,
        vec![48, 14, 4, 12, 72, 101, 108, 108, 111, 32, 87, 111, 114, 108, 100, 33]
    );
}

#[test]
fn complex_tag() {
    let tag = sequence(
        TagClass::Universal,
        16,
        vec![
            integer(vec![1]),
            sequence(
                TagClass::Application,
                0,
                vec![
                    integer(vec![3]),
                    OctetString {
                        inner: String::from("cn=root,dc=plabs").into_bytes(),
                        ..Default::default()
                    }
                    .into_structure(),
                    OctetString {
                        id: 0,
                        class: TagClass::Context,
                        inner: String::from("asdf").into_bytes(),
                    }
                    .into_structure(),
                ],
            ),
        ],
    );

    let expected = vec![
        0x30, 0x20, 0x02, 0x01, 0x01, 0x60, 0x1B, 0x02, 0x01, 0x03, 0x04, 0x10, 0x63, 0x6e, 0x3d,
        0x72, 0x6f, 0x6f, 0x74, 0x2c, 0x64, 0x63, 0x3d, 0x70, 0x6c, 0x61, 0x62, 0x73, 0x80, 0x04,
        0x61, 0x73, 0x64, 0x66,
    ];

    let mut buf = Vec::<u8>::new();
    encode_into(&mut buf, tag);

    assert_eq!(buf, expected);
}

#[test]
fn encode_appends_to_existing_bytes() {
    let mut buf = vec![0xAA];
    encode_into(&mut buf, Null::default().into_structure());
    assert_eq!(buf, vec![0xAA, 0x05, 0x00]);
}

#[test]
fn short_form_length_boundary() {
    let mut buf = Vec::new();
    write_length(&mut buf, 127);
    assert_eq!(buf, vec![0x7F]);
    let mut buf = Vec::new();
    write_length(&mut buf, 128);
    assert_eq!(buf, vec![0x81, 0x80]);
}

#[test]
fn long_form_lengths_are_big_endian_and_minimal() {
    let mut buf = Vec::new();
    write_length(&mut buf, 0);
    assert_eq!(buf, vec![0x00]);
    let mut buf = Vec::new();
    write_length(&mut buf, 256);
    assert_eq!(buf, vec![0x82, 0x01, 0x00]);
    let mut buf = Vec::new();
    write_length(&mut buf, 0x01_02_03);
    assert_eq!(buf, vec![0x83, 0x01, 0x02, 0x03]);
    let mut buf = Vec::new();
    write_length(&mut buf, usize::MAX);
    let mut expected = vec![0x80 | (usize::BITS / 8) as u8];
    expected.extend(std::iter::repeat(0xFF).take((usize::BITS / 8) as usize));
    assert_eq!(buf, expected);
}

#[test]
fn tag_number_boundary() {
    let mut buf = Vec::new();
    write_type(&mut buf, TagClass::Universal, TagStructure::Primitive, 30);
    assert_eq!(buf, vec![0x1E]);
    let mut buf = Vec::new();
    write_type(&mut buf, TagClass::Universal, TagStructure::Primitive, 31);
    assert_eq!(buf, vec![0x1F, 0x1F]);
    let mut buf = Vec::new();
    write_type(&mut buf, TagClass::Application, TagStructure::Primitive, 65);
    assert_eq!(buf, vec![0x5F, 0x41]);
}

#[test]
fn multi_byte_tag_numbers() {
    let mut buf = Vec::new();
    write_type(&mut buf, TagClass::Private, TagStructure::Constructed, 201);
    assert_eq!(buf, vec![0xFF, 0x81, 0x49]);
    let mut buf = Vec::new();
    write_type(&mut buf, TagClass::Context, TagStructure::Primitive, 16384);
    assert_eq!(buf, vec![0x9F, 0x81, 0x80, 0x00]);
    let mut buf = Vec::new();
    write_type(&mut buf, TagClass::Universal, TagStructure::Primitive, u64::MAX);
    assert_eq!(
        buf,
        vec![0x1F, 0x81, 0xFF, 0xFF, 0xFF, 0xFF, 0xFF, 0xFF, 0xFF, 0xFF, 0x7F]
    );
}

#[test]
fn long_payload_uses_long_form() {
    let tag = OctetString {
        inner: vec![7u8; 300],
        ..Default::default()
    }
    .into_structure();
    let out = encode(&tag);
    assert_eq!(&out[..4], &[0x04, 0x82, 0x01, 0x2C]);
    assert_eq!(out.len(), 304);
}
