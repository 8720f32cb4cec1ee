use forest_cid::Code;
use ipld_proofs::{Error, Proof};

#[test]
fn serialize_symmetric() {
    let proof = Proof::from_nodes(vec![b"one".to_vec(), b"two".to_vec(), b"three".to_vec()])
        .unwrap();
    let serialized_bytes = proof.serialize();
    assert_eq!(Proof::deserialize(&serialized_bytes).unwrap(), proof);
}

#[test]
fn serialized_form_is_cbor_array_of_byte_strings() {
    let nodes = vec![b"one".to_vec(), b"two".to_vec(), b"three".to_vec()];
    let proof = Proof::from_nodes(nodes.clone()).unwrap();
    let expected: Vec<forest_encoding::serde_bytes::ByteBuf> = nodes
        .into_iter()
        .map(forest_encoding::serde_bytes::ByteBuf::from)
        .collect();
    assert_eq!(proof.serialize(), forest_encoding::to_vec(&expected).unwrap());
    assert_eq!(
        proof.serialize(),
        vec![0x83, 0x43, b'o', b'n', b'e', 0x43, b't', b'w', b'o', 0x45, b't', b'h', b'r', b'e', b'e']
    );
}

#[test]
fn serialize_long_node_round_trip() {
    let proof = Proof::from_nodes(vec![vec![7u8; 300], vec![], vec![1u8; 24]]).unwrap();
    let bytes = proof.serialize();
    assert_eq!(&bytes[..4], &[0x83, 0x59, 0x01, 0x2c]);
    assert_eq!(Proof::deserialize(&bytes).unwrap(), proof);
}

#[test]
fn deserialize_rejects_malformed() {
    assert_eq!(Proof::deserialize(&[]).unwrap_err(), Error::Malformed);
    // empty array: a proof is never empty
    assert_eq!(Proof::deserialize(&[0x80]).unwrap_err(), Error::Malformed);
    // trailing byte
    assert_eq!(Proof::deserialize(&[0x81, 0x41, 1, 0]).unwrap_err(), Error::Malformed);
    // truncated byte string
    assert_eq!(Proof::deserialize(&[0x81, 0x43, 1]).unwrap_err(), Error::Malformed);
    // not an array
    assert_eq!(Proof::deserialize(&[0x41, 1]).unwrap_err(), Error::Malformed);
    // non-canonical length
    assert_eq!(Proof::deserialize(&[0x98, 0x01, 0x41, 1]).unwrap_err(), Error::Malformed);
    assert!(Proof::deserialize(&[0x81, 0x41, 1]).is_ok());
}

#[test]
fn empty_proof_cannot_be_made() {
    assert!(Proof::from_nodes(vec![]).is_none());
}

#[test]
fn invalid_proof_names_missing_link() {
    let leaf = forest_encoding::to_vec(&8u8).unwrap();
    let other = forest_encoding::to_vec(&"foo").unwrap();
    let proof = Proof::from_nodes(vec![leaf.clone(), other.clone()]).unwrap();
    let expected_link = forest_cid::new_from_cbor(&leaf, Code::Blake2b256).to_bytes();
    assert_eq!(
        proof.validate().unwrap_err(),
        Error::InvalidProof { link: expected_link, data: other }
    );
}

#[test]
fn valid_two_node_proof() {
    let leaf = forest_encoding::to_vec(&"leaf").unwrap();
    let leaf_cid = forest_cid::new_from_cbor(&leaf, Code::Blake2b256);
    let parent = forest_encoding::to_vec(&(1u8, leaf_cid)).unwrap();
    let proof = Proof::from_nodes(vec![leaf, parent.clone()]).unwrap();
    assert!(proof.validate().is_ok());
    assert_eq!(
        proof.root(),
        forest_cid::new_from_cbor(&parent, Code::Blake2b256).to_bytes()
    );
}

#[test]
fn single_node_proof_validates_trivially() {
    let proof = Proof::from_nodes(vec![vec![0xff]]).unwrap();
    assert!(proof.validate().is_ok());
}

#[test]
fn root_is_cid_of_last_block() {
    let block = forest_encoding::to_vec(&"abc").unwrap();
    let proof = Proof::from_nodes(vec![block.clone()]).unwrap();
    let root = proof.root();
    assert_eq!(root, forest_cid::new_from_cbor(&block, Code::Blake2b256).to_bytes());
    assert_ne!(root, block);
}

#[test]
fn error_messages() {
    assert!(Error::NodeNotFound.message().contains("not visited"));
    assert_eq!(Error::Encoding("boom".to_string()).message(), "boom");
}
