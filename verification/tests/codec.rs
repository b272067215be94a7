use git_odb::hex::{loose_path, to_hex};
use git_odb::object::{encode_object, parse_object, FindError, Kind, ObjectId};
use git_odb::protocol::{connection_url, supported_protocol_versions, Protocol};

#[test]
fn serialized_form_round_trips() {
    let data = b"payload bytes".to_vec();
    let encoded = encode_object(Kind::Tree, &data);
    assert_eq!(&encoded[..8], b"tree 13\0");
    let parsed = parse_object(&encoded).unwrap();
    assert_eq!(parsed.kind, Kind::Tree);
    assert_eq!(parsed.data, data);
}

#[test]
fn declared_size_must_match_payload() {
    let mut encoded = encode_object(Kind::Blob, &b"abc".to_vec());
    encoded.push(b'd');
    assert_eq!(parse_object(&encoded).unwrap_err(), FindError::Corrupt);
    assert_eq!(parse_object(&b"blob x\0abc".to_vec()).unwrap_err(), FindError::Corrupt);
    assert_eq!(parse_object(&b"branch 3\0abc".to_vec()).unwrap_err(), FindError::Corrupt);
    assert_eq!(parse_object(&b"no separator".to_vec()).unwrap_err(), FindError::Corrupt);
}

#[test]
fn empty_payload_encodes_with_zero_size() {
    let encoded = encode_object(Kind::Blob, &Vec::new());
    assert_eq!(encoded, b"blob 0\0".to_vec());
    let parsed = parse_object(&encoded).unwrap();
    assert_eq!(parsed.kind, Kind::Blob);
    assert!(parsed.data.is_empty());
}

#[test]
fn hex_and_derived_path() {
    let mut bytes = vec![0xde, 0xad, 0xbe, 0xef];
    while bytes.len() < 20 {
        bytes.push(0x0f);
    }
    let id = ObjectId::from_bytes(bytes);
    let hex = to_hex(id.as_bytes());
    assert_eq!(&hex[..8], b"deadbeef");
    assert_eq!(hex.len(), 40);
    let path = loose_path(&id);
    assert_eq!(&path[..3], b"de/");
    assert_eq!(path.len(), 41);
    assert_eq!(&path[3..11], b"adbeef0f");
}

#[test]
fn object_ids_compare_byte_wise() {
    let a = ObjectId::from_bytes(vec![1u8; 20]);
    let b = ObjectId::from_bytes(vec![1u8; 20]);
    let c = ObjectId::from_bytes(vec![2u8; 20]);
    assert_eq!(a, b);
    assert_ne!(a, c);
}

#[test]
fn downgrade_to_first_protocol_version_is_refused() {
    let configured = vec![Protocol::V2];
    assert!(supported_protocol_versions(Protocol::V1, &configured).is_empty());
    assert_eq!(supported_protocol_versions(Protocol::V2, &configured), vec![Protocol::V2]);
}

#[test]
fn connection_url_prefers_custom_then_file_scheme() {
    assert_eq!(connection_url(&None, &b"/repo".to_vec()), b"file:///repo".to_vec());
    assert_eq!(
        connection_url(&Some(b"git://host/repo".to_vec()), &b"/repo".to_vec()),
        b"git://host/repo".to_vec()
    );
}
