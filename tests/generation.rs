use forest_cid::{Cid, Code};
use forest_db::{MemoryDB, Store};
use ipld_blockstore::BlockStore;
use ipld_proofs::{Error, ProofGenerator};
use std::collections::BTreeMap;
use std::convert::TryFrom;

const DEFAULT_HASH_CODE: Code = Code::Blake2b256;

/// Reads a block through the generator, as a recording block store does.
fn read(p_gen: &mut ProofGenerator<MemoryDB>, cid: &Cid) -> Vec<u8> {
    let found = p_gen.base().get_bytes(cid).unwrap();
    p_gen.record_read(cid.to_bytes(), found).unwrap()
}

/// Writes a value through the generator, as a recording block store does.
fn put<S: serde::Serialize>(p_gen: &mut ProofGenerator<MemoryDB>, value: &S) -> Cid {
    let bytes = forest_encoding::to_vec(value).unwrap();
    let key = p_gen.record_put(&bytes);
    p_gen.base().write(&key, &bytes).unwrap();
    Cid::try_from(key).unwrap()
}

#[test]
fn puts_tracked() {
    let bs = MemoryDB::default();
    let mut p_gen = ProofGenerator::new(&bs);

    let cid = put(&mut p_gen, &8u8);
    let bytes = read(&mut p_gen, &cid);
    assert_eq!(forest_encoding::from_slice::<u8>(&bytes).unwrap(), 8);
    assert_eq!(p_gen.len(), 1);

    let proof = p_gen.generate_proof(&8u8).unwrap();
    proof.validate().unwrap();
}

#[test]
fn dag_tracking_generation() {
    //      r        u
    //     /|\
    //    a b c
    //       / \
    //      d   e
    //      |
    //      f <-
    //      |
    //      g

    let bs = MemoryDB::default();

    let r = {
        let g = bs.put(&"value", DEFAULT_HASH_CODE).unwrap();
        let f = bs.put(&(g, 3u8), DEFAULT_HASH_CODE).unwrap();
        let d = bs.put(&(5u8, f), DEFAULT_HASH_CODE).unwrap();
        let e = bs.put(&8u8, DEFAULT_HASH_CODE).unwrap();
        let mut c_map = BTreeMap::new();
        c_map.insert("d".to_string(), d);
        c_map.insert("e".to_string(), e);
        let c = bs.put(&c_map, DEFAULT_HASH_CODE).unwrap();
        let b = bs.put(&"Some other value", DEFAULT_HASH_CODE).unwrap();
        let a = bs.put(&(2u8, "3", 4u64), DEFAULT_HASH_CODE).unwrap();
        bs.put(&[a, b, c], DEFAULT_HASH_CODE).unwrap()
    };

    let u = bs.put(&"unrelated node", DEFAULT_HASH_CODE).unwrap();

    let mut p_gen = ProofGenerator::new(&bs);

    // An unrelated node must not affect the proof.
    let u_bytes = read(&mut p_gen, &u);
    assert_eq!(
        forest_encoding::from_slice::<String>(&u_bytes).unwrap(),
        "unrelated node".to_string()
    );

    let [_, _, c]: [Cid; 3] = forest_encoding::from_slice(&read(&mut p_gen, &r)).unwrap();
    let c_map: BTreeMap<String, Cid> = forest_encoding::from_slice(&read(&mut p_gen, &c)).unwrap();
    let d = c_map["d"];
    let (_, d): (u8, Cid) = forest_encoding::from_slice(&read(&mut p_gen, &d)).unwrap();
    let prove_node: (Cid, u8) = forest_encoding::from_slice(&read(&mut p_gen, &d)).unwrap();
    assert_eq!(
        forest_encoding::from_slice::<String>(&read(&mut p_gen, &prove_node.0)).unwrap(),
        "value".to_string()
    );

    // Proof all the way to the root node.
    let proof = p_gen.generate_proof(&prove_node).unwrap();
    assert_eq!(proof.nodes().len(), 4);
    assert_eq!(proof.root(), r.to_bytes());
    proof.validate().unwrap();

    // Proof only up to the `c` node.
    let proof = p_gen.generate_proof_to_cid(&prove_node, &c.to_bytes()).unwrap();
    assert_eq!(proof.nodes().len(), 3);
    assert_eq!(proof.root(), c.to_bytes());
    proof.validate().unwrap();
}

#[test]
fn single_block_proof() {
    let bs = MemoryDB::default();
    let mut p_gen = ProofGenerator::new(&bs);
    let cid = put(&mut p_gen, &8u8);
    let proof = p_gen.generate_proof(&8u8).unwrap();
    assert_eq!(proof.nodes().len(), 1);
    assert_eq!(proof.root(), cid.to_bytes());
    assert!(proof.validate().is_ok());
}

#[test]
fn single_node_proof_to_itself() {
    let bs = MemoryDB::default();
    let mut p_gen = ProofGenerator::new(&bs);
    let cid = put(&mut p_gen, &"leaf");
    let bytes = forest_encoding::to_vec(&"leaf").unwrap();
    let proof = p_gen.generate_proof_raw(bytes.clone(), Some(&cid.to_bytes())).unwrap();
    assert_eq!(proof.nodes().to_vec(), vec![bytes]);
    assert!(proof.validate().is_ok());
}

#[test]
fn node_not_found_without_reads() {
    let bs = MemoryDB::default();
    let p_gen = ProofGenerator::new(&bs);
    assert_eq!(p_gen.generate_proof(&42u8).unwrap_err(), Error::NodeNotFound);
}

#[test]
fn node_not_found_when_only_stored_directly() {
    let bs = MemoryDB::default();
    bs.put(&42u8, DEFAULT_HASH_CODE).unwrap();
    let p_gen = ProofGenerator::new(&bs);
    let bytes = forest_encoding::to_vec(&42u8).unwrap();
    assert_eq!(p_gen.generate_proof_raw(bytes, None).unwrap_err(), Error::NodeNotFound);
}

#[test]
fn unreachable_root_gives_highest_ancestor() {
    let bs = MemoryDB::default();
    let mut p_gen = ProofGenerator::new(&bs);
    let leaf = put(&mut p_gen, &"leaf");
    let top = put(&mut p_gen, &(leaf, 1u8));
    let other = put(&mut p_gen, &"elsewhere");
    let proof = p_gen.generate_proof_to_cid(&"leaf", &other.to_bytes()).unwrap();
    assert_eq!(proof.nodes().len(), 2);
    assert_eq!(proof.root(), top.to_bytes());
    assert!(proof.validate().is_ok());
}

#[test]
fn unrelated_reads_keep_proofs_valid() {
    let bs = MemoryDB::default();
    let mut p_gen = ProofGenerator::new(&bs);
    let leaf = put(&mut p_gen, &"leaf");
    let top = put(&mut p_gen, &[leaf]);
    let first = p_gen.generate_proof(&"leaf").unwrap();
    put(&mut p_gen, &"noise");
    put(&mut p_gen, &(7u8, "more noise"));
    let second = p_gen.generate_proof(&"leaf").unwrap();
    assert!(first.validate().is_ok());
    assert!(second.validate().is_ok());
    assert_eq!(second.root(), top.to_bytes());
    assert_eq!(first, second);
}

#[test]
fn first_observation_wins() {
    let bs = MemoryDB::default();
    let mut p_gen = ProofGenerator::new(&bs);
    let key = vec![1u8, 2, 3];
    p_gen.record(key.clone(), b"first".to_vec());
    p_gen.record(key.clone(), b"second".to_vec());
    assert_eq!(p_gen.len(), 1);
    assert!(p_gen.contains(&key));
    assert!(p_gen.record_read(vec![9u8], None).is_none());
    assert_eq!(p_gen.len(), 1);
}
