use name_section::DecodeError;
use name_section::EncodeError;
use name_section::FunctionNameSection;
use name_section::LocalNameSection;
use name_section::ModuleNameSection;
use name_section::NameMap;
use name_section::NameSection;

// A helper funtion for the tests. Serialize a section, deserialize it,
// and make sure it matches the original.
fn serialize_and_deserialize(original: NameSection) {
    let mut buffer: Vec<u8> = vec![];
    original.serialize(&mut buffer).expect("serialize error");
    let (deserialized, used) = NameSection::deserialize(&buffer, 0).expect("deserialize error");
    assert_eq!(used, buffer.len());
    assert_eq!(deserialized, original);
}

#[test]
fn serialize_and_deserialize_module_name() {
    let sect = ModuleNameSection::new("my_mod");
    serialize_and_deserialize(NameSection::Module(sect));
}

#[test]
fn serialize_and_deserialize_function_names() {
    let mut sect = FunctionNameSection::default();
    sect.names_mut().insert(0, "hello_world".to_string());
    serialize_and_deserialize(NameSection::Function(sect));
}

#[test]
fn serialize_and_deserialize_local_names() {
    let mut sect = LocalNameSection::default();
    let mut locals = NameMap::default();
    locals.insert(0, "msg".to_string());
    sect.local_names_mut().insert(0, locals);
    serialize_and_deserialize(NameSection::Local(sect));
}

#[test]
fn serialize_and_deserialize_unparsed() {
    let sect = NameSection::Unparsed {
        // A made-up name section type which is unlikely to be allocated
        // soon.
        name_type: 120,
        name_payload: vec![0u8, 1, 2],
    };
    serialize_and_deserialize(sect);
}

#[test]
fn module_name_tag_byte_is_zero() {
    let sect = NameSection::Module(ModuleNameSection::new("my_mod"));
    let mut buffer: Vec<u8> = vec![];
    sect.serialize(&mut buffer).expect("serialize error");
    assert_eq!(buffer[0], 0);
    assert_eq!(
        buffer,
        vec![0, 7, 6, b'm', b'y', b'_', b'm', b'o', b'd']
    );
    let (deserialized, used) = NameSection::deserialize(&buffer, 0).expect("deserialize error");
    assert_eq!(used, buffer.len());
    assert_eq!(deserialized, sect);
}

#[test]
fn function_names_single_entry() {
    let mut sect = FunctionNameSection::default();
    sect.names_mut().insert(0, "hello_world".to_string());
    let original = NameSection::Function(sect);
    let mut buffer: Vec<u8> = vec![];
    original.serialize(&mut buffer).expect("serialize error");
    let (deserialized, _) = NameSection::deserialize(&buffer, 0).expect("deserialize error");
    match deserialized {
        NameSection::Function(f) => {
            assert_eq!(f.names().len(), 1);
            assert_eq!(f.names().get(0), Some(&"hello_world".to_string()));
            assert_eq!(f.names().get(1), None);
        }
        other => panic!("wrong variant: {:?}", other),
    }
}

#[test]
fn local_names_nested_structure() {
    let mut sect = LocalNameSection::default();
    let mut locals = NameMap::default();
    locals.insert(0, "msg".to_string());
    sect.local_names_mut().insert(0, locals);
    let original = NameSection::Local(sect);
    let mut buffer: Vec<u8> = vec![];
    original.serialize(&mut buffer).expect("serialize error");
    let (deserialized, _) = NameSection::deserialize(&buffer, 0).expect("deserialize error");
    match deserialized {
        NameSection::Local(l) => {
            assert_eq!(l.local_names().len(), 1);
            let inner = l.local_names().get(0).expect("missing function entry");
            assert_eq!(inner.len(), 1);
            assert_eq!(inner.get(0), Some(&"msg".to_string()));
        }
        other => panic!("wrong variant: {:?}", other),
    }
}

#[test]
fn unparsed_tag_and_payload_kept_verbatim() {
    let buffer: Vec<u8> = vec![120, 3, 0, 1, 2];
    let (deserialized, used) = NameSection::deserialize(&buffer, 0).expect("deserialize error");
    assert_eq!(used, buffer.len());
    assert_eq!(
        deserialized,
        NameSection::Unparsed { name_type: 120, name_payload: vec![0, 1, 2] }
    );
    let mut reencoded: Vec<u8> = vec![];
    deserialized.serialize(&mut reencoded).expect("serialize error");
    assert_eq!(reencoded, buffer);
}

#[test]
fn out_of_order_insertion_serializes_ascending() {
    let mut sect = FunctionNameSection::default();
    sect.names_mut().insert(5, "b".to_string());
    sect.names_mut().insert(0, "a".to_string());
    let mut buffer: Vec<u8> = vec![];
    NameSection::Function(sect).serialize(&mut buffer).expect("serialize error");
    // Tag, payload length, count, then index 0's entry before index 5's.
    assert_eq!(buffer, vec![1, 7, 2, 0, 1, b'a', 5, 1, b'b']);
}

#[test]
fn duplicate_index_overwrites() {
    let mut map = NameMap::default();
    assert_eq!(map.insert(0, "a".to_string()), None);
    assert_eq!(map.insert(0, "b".to_string()), Some("a".to_string()));
    assert_eq!(map.len(), 1);
    assert_eq!(map.get(0), Some(&"b".to_string()));
    let mut sect = FunctionNameSection::default();
    sect.names_mut().insert(0, "a".to_string());
    sect.names_mut().insert(0, "b".to_string());
    let mut buffer: Vec<u8> = vec![];
    NameSection::Function(sect).serialize(&mut buffer).expect("serialize error");
    // The count byte reflects one unique index, holding the newer name.
    assert_eq!(buffer, vec![1, 4, 1, 0, 1, b'b']);
}

#[test]
fn empty_function_map_payload_is_zero_count() {
    let sect = NameSection::Function(FunctionNameSection::default());
    let mut buffer: Vec<u8> = vec![];
    sect.serialize(&mut buffer).expect("serialize error");
    assert_eq!(buffer, vec![1, 1, 0]);
    let (deserialized, _) = NameSection::deserialize(&buffer, 0).expect("deserialize error");
    match deserialized {
        NameSection::Function(f) => assert_eq!(f.names().len(), 0),
        other => panic!("wrong variant: {:?}", other),
    }
}

#[test]
fn declared_length_beyond_input_is_truncated() {
    // Unknown tag 120 declares five payload bytes but holds two.
    let buffer: Vec<u8> = vec![120, 5, 0, 1];
    assert_eq!(
        NameSection::deserialize(&buffer, 0),
        Err(DecodeError::Truncated)
    );
    // A known tag with the same defect fails the same way.
    let buffer: Vec<u8> = vec![0, 10, 1, b'A'];
    assert_eq!(
        NameSection::deserialize(&buffer, 0),
        Err(DecodeError::Truncated)
    );
    // The empty input cannot even hold a tag.
    let buffer: Vec<u8> = vec![];
    assert_eq!(
        NameSection::deserialize(&buffer, 0),
        Err(DecodeError::Truncated)
    );
}

#[test]
fn tag_byte_outside_seven_bit_range_is_malformed() {
    let buffer: Vec<u8> = vec![200];
    assert_eq!(
        NameSection::deserialize(&buffer, 0),
        Err(DecodeError::MalformedVarint)
    );
}

#[test]
fn overlong_varint_is_malformed() {
    // Six continuation bytes exceed the five-byte budget of a 32-bit varint.
    let buffer: Vec<u8> = vec![120, 0x80, 0x80, 0x80, 0x80, 0x80, 0x00];
    assert_eq!(
        NameSection::deserialize(&buffer, 0),
        Err(DecodeError::MalformedVarint)
    );
    // A padded (non-minimal) encoding of zero is rejected too.
    let buffer: Vec<u8> = vec![120, 0x80, 0x00];
    assert_eq!(
        NameSection::deserialize(&buffer, 0),
        Err(DecodeError::MalformedVarint)
    );
}

#[test]
fn name_bytes_must_be_utf8() {
    // Module payload: a one-byte name holding 0xFF.
    let buffer: Vec<u8> = vec![0, 2, 1, 0xFF];
    assert_eq!(
        NameSection::deserialize(&buffer, 0),
        Err(DecodeError::InvalidUtf8)
    );
}

#[test]
fn descending_indices_are_rejected() {
    // Function payload: two entries under indices 1 then 0.
    let buffer: Vec<u8> = vec![1, 5, 2, 1, 0, 0, 0];
    assert_eq!(
        NameSection::deserialize(&buffer, 0),
        Err(DecodeError::IndexOrder)
    );
    // A repeated index is no better.
    let buffer: Vec<u8> = vec![1, 5, 2, 1, 0, 1, 0];
    assert_eq!(
        NameSection::deserialize(&buffer, 0),
        Err(DecodeError::IndexOrder)
    );
}

#[test]
fn known_payload_must_span_declared_length() {
    // Module payload declared three bytes long, but the name ends after two.
    let buffer: Vec<u8> = vec![0, 3, 1, b'A', b'B'];
    assert_eq!(
        NameSection::deserialize(&buffer, 0),
        Err(DecodeError::LengthMismatch)
    );
}

#[test]
fn large_index_uses_multi_byte_varint() {
    let mut sect = FunctionNameSection::default();
    sect.names_mut().insert(300, "x".to_string());
    let mut buffer: Vec<u8> = vec![];
    NameSection::Function(sect).serialize(&mut buffer).expect("serialize error");
    // 300 = 0xAC 0x02 in little-endian seven-bit groups.
    assert_eq!(buffer, vec![1, 5, 1, 0xAC, 0x02, 1, b'x']);
    let (deserialized, _) = NameSection::deserialize(&buffer, 0).expect("deserialize error");
    match deserialized {
        NameSection::Function(f) => assert_eq!(f.names().get(300), Some(&"x".to_string())),
        other => panic!("wrong variant: {:?}", other),
    }
}

#[test]
fn non_ascii_module_name_round_trips() {
    let sect = NameSection::Module(ModuleNameSection::new("caf\u{e9}"));
    let mut buffer: Vec<u8> = vec![];
    sect.serialize(&mut buffer).expect("serialize error");
    // "café" is five bytes of UTF-8: the accented letter takes two.
    assert_eq!(buffer, vec![0, 6, 5, b'c', b'a', b'f', 0xC3, 0xA9]);
    let (deserialized, _) = NameSection::deserialize(&buffer, 0).expect("deserialize error");
    match &deserialized {
        NameSection::Module(m) => assert_eq!(m.name(), "caf\u{e9}"),
        other => panic!("wrong variant: {:?}", other),
    }
    assert_eq!(deserialized, sect);
}

#[test]
fn unparsed_tag_must_fit_seven_bits() {
    let sect = NameSection::Unparsed { name_type: 200, name_payload: vec![] };
    let mut buffer: Vec<u8> = vec![];
    assert_eq!(sect.serialize(&mut buffer), Err(EncodeError::TagRange));
    assert_eq!(buffer, Vec::<u8>::new());
}

#[test]
fn module_name_accessors() {
    let mut sect = ModuleNameSection::new("first");
    assert_eq!(sect.name(), "first");
    *sect.name_mut() = "second".to_string();
    assert_eq!(sect.name(), "second");
}

#[test]
fn consecutive_sections_decode_in_sequence() {
    let mut buffer: Vec<u8> = vec![];
    NameSection::Module(ModuleNameSection::new("m"))
        .serialize(&mut buffer)
        .expect("serialize error");
    let first_len = buffer.len();
    NameSection::Unparsed { name_type: 99, name_payload: vec![7] }
        .serialize(&mut buffer)
        .expect("serialize error");
    let (first, used) = NameSection::deserialize(&buffer, 0).expect("deserialize error");
    assert_eq!(used, first_len);
    assert_eq!(first, NameSection::Module(ModuleNameSection::new("m")));
    let (second, end) = NameSection::deserialize(&buffer, used).expect("deserialize error");
    assert_eq!(end, buffer.len());
    assert_eq!(
        second,
        NameSection::Unparsed { name_type: 99, name_payload: vec![7] }
    );
}
