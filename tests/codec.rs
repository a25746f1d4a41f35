use clarity_db::types::{ClarityName, ContractAnalysis, MapEntry, TypeSignature};

fn empty() -> ContractAnalysis {
    ContractAnalysis {
        public_function_types: vec![],
        read_only_function_types: vec![],
        defined_traits: vec![],
        implemented_traits: vec![],
        map_types: vec![],
    }
}

#[test]
fn empty_analysis_encodes_as_five_zero_counts() {
    assert_eq!(empty().serialize(), vec![0u8; 40]);
}

#[test]
fn one_map_encodes_exactly() {
    let mut a = empty();
    a.map_types.push(MapEntry {
        name: ClarityName::new("m"),
        key_type: TypeSignature::IntType,
        value_type: TypeSignature::BufferType(0x0102),
    });
    let mut expected = vec![0u8; 32];
    expected.extend_from_slice(&[1, 0, 0, 0, 0, 0, 0, 0]);
    expected.extend_from_slice(&[1, 0, 0, 0, 0, 0, 0, 0, b'm']);
    expected.extend_from_slice(&[1, 0, 0, 0, 0, 0, 0, 0, 0]);
    expected.extend_from_slice(&[5, 2, 1, 0, 0, 0, 0, 0, 0]);
    assert_eq!(a.serialize(), expected);
}

#[test]
fn round_trip_keeps_every_part() {
    let mut a = empty();
    a.map_types.push(MapEntry {
        name: ClarityName::new("balances"),
        key_type: TypeSignature::PrincipalType,
        value_type: TypeSignature::StringUtf8Type(70000),
    });
    let bytes = a.serialize();
    let back = ContractAnalysis::deserialize(&bytes).unwrap();
    assert_eq!(back.map_types.len(), 1);
    assert_eq!(back.map_types[0].name.bytes, b"balances".to_vec());
    assert_eq!(back.map_types[0].key_type, TypeSignature::PrincipalType);
    assert_eq!(back.map_types[0].value_type, TypeSignature::StringUtf8Type(70000));
    assert_eq!(back.serialize(), bytes);
}

#[test]
fn malformed_bytes_are_refused() {
    let bytes = empty().serialize();
    assert!(ContractAnalysis::deserialize(&bytes[..39].to_vec()).is_none());
    let mut longer = bytes.clone();
    longer.push(0);
    assert!(ContractAnalysis::deserialize(&longer).is_none());
    let mut bad_tag = empty();
    bad_tag.map_types.push(MapEntry { name: ClarityName::new("m"), key_type: TypeSignature::IntType, value_type: TypeSignature::IntType });
    let mut b = bad_tag.serialize();
    let tag_at = 32 + 8 + 9;
    b[tag_at] = 9;
    assert!(ContractAnalysis::deserialize(&b).is_none());
    assert!(ContractAnalysis::deserialize(&vec![]).is_none());
}
