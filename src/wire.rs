//! The wire form of a proof: a CBOR array of byte strings, leaf first.
use vstd::prelude::*;
use crate::bytes::copy_bytes;
use crate::cbor::{
    head, header_at, lemma_head_of_header, lemma_header_advances, lemma_header_of_head, read_header,
    write_head,
};
use crate::error::Error;
use crate::inclusion::{views, Proof};

verus! {

/// A byte string item: its header, then its bytes.
pub open spec fn item_bytes(node: Seq<u8>) -> Seq<u8> {
    head(2, node.len()) + node
}

/// The byte string items of `nodes`, one after the other.
pub open spec fn encode_items(nodes: Seq<Seq<u8>>) -> Seq<u8>
    decreases nodes.len(),
{
    if nodes.len() == 0 {
        seq![]
    } else {
        encode_items(nodes.drop_last()) + item_bytes(nodes.last())
    }
}

/// The wire form of the proof with the blocks `nodes`.
pub open spec fn encode_proof(nodes: Seq<Seq<u8>>) -> Seq<u8> {
    head(4, nodes.len()) + encode_items(nodes)
}

/// The count of blocks and the length of each block fit a CBOR argument (64 bits).
pub open spec fn fits_cbor(nodes: Seq<Seq<u8>>) -> bool {
    &&& nodes.len() < 0x1_0000_0000_0000_0000
    &&& forall|k: int| 0 <= k < nodes.len() ==> #[trigger] nodes[k].len() < 0x1_0000_0000_0000_0000
}

/// `bytes` is the wire form of some non-empty list of blocks.
pub open spec fn is_encoded_proof(bytes: Seq<u8>) -> bool {
    exists|nodes: Seq<Seq<u8>>|
        nodes.len() > 0 && fits_cbor(nodes) && #[trigger] encode_proof(nodes) == bytes
}

proof fn lemma_items_take(e: Seq<Seq<u8>>, k: int)
    requires
        0 <= k < e.len(),
    ensures
        encode_items(e.take(k + 1)) == encode_items(e.take(k)) + item_bytes(e[k]),
{
    assert(e.take(k + 1).drop_last() =~= e.take(k));
}

proof fn lemma_items_prefix(e: Seq<Seq<u8>>, k: int)
    requires
        0 <= k <= e.len(),
    ensures
        encode_items(e.take(k)).len() <= encode_items(e).len(),
        encode_items(e).subrange(0, encode_items(e.take(k)).len() as int) == encode_items(e.take(k)),
    decreases e.len(),
{
    if k == e.len() {
        assert(e.take(k) =~= e);
        assert(encode_items(e).subrange(0, encode_items(e).len() as int) =~= encode_items(e));
    } else {
        let d = e.drop_last();
        lemma_items_prefix(d, k);
        assert(d.take(k) =~= e.take(k));
        let p = encode_items(e.take(k));
        assert(encode_items(e).subrange(0, p.len() as int) =~= encode_items(d).subrange(0, p.len() as int));
    }
}

/// Where the `i`th block lies in the wire form of `e`, and that it reads back.
proof fn lemma_item_at(e: Seq<Seq<u8>>, i: int)
    requires
        0 <= i < e.len(),
        e.len() < 0x1_0000_0000_0000_0000,
        forall|k: int| 0 <= k < e.len() ==> #[trigger] e[k].len() < 0x1_0000_0000_0000_0000,
    ensures
        ({
            let b = encode_proof(e);
            let pos: int = (head(4, e.len()).len() + encode_items(e.take(i)).len()) as int;
            let start: int = pos + head(2, e[i].len()).len();
            &&& start + e[i].len() <= b.len()
            &&& header_at(b, pos) == Some((2u8, e[i].len(), start))
            &&& b.subrange(start, start + e[i].len()) == e[i]
            &&& b.subrange(0, start + e[i].len()) == head(4, e.len()) + encode_items(e.take(i + 1))
        }),
{
    let b = encode_proof(e);
    let h = head(4, e.len());
    let pre = encode_items(e.take(i));
    let it = item_bytes(e[i]);
    let pos: int = (h.len() + pre.len()) as int;
    lemma_items_take(e, i);
    lemma_items_prefix(e, i + 1);
    let pre1 = encode_items(e.take(i + 1));
    assert(pre1 =~= pre + it);
    assert(b.subrange(0, h.len() + pre1.len() as int) =~= h + pre1);
    let full = b.subrange(0, h.len() + pre1.len() as int);
    assert(full =~= h + pre + it);
    assert(b.subrange(pos, pos + it.len()) =~= full.subrange(pos, pos + it.len()));
    assert(full.subrange(pos, pos + it.len()) =~= it);
    assert(b.subrange(pos, pos + it.len()) =~= it);
    let hh = head(2, e[i].len());
    assert(b.subrange(pos, pos + hh.len()) =~= hh);
    lemma_header_of_head(b, pos, 2, e[i].len());
    assert(b.subrange(pos + hh.len(), pos + it.len()) =~= it.subrange(
        hh.len() as int,
        it.len() as int,
    ));
    assert(it.subrange(hh.len() as int, it.len() as int) =~= e[i]);
}

/// Two lists of blocks with the same wire form are the same: a proof read back from
/// its wire form is the proof that was written.
pub proof fn lemma_encoding_injective(n1: Seq<Seq<u8>>, n2: Seq<Seq<u8>>)
    requires
        fits_cbor(n1),
        fits_cbor(n2),
        encode_proof(n1) == encode_proof(n2),
    ensures
        n1 == n2,
{
    let b = encode_proof(n1);
    assert(b.subrange(0, head(4, n1.len()).len() as int) =~= head(4, n1.len()));
    assert(b.subrange(0, head(4, n2.len()).len() as int) =~= head(4, n2.len()));
    lemma_header_of_head(b, 0, 4, n1.len());
    lemma_header_of_head(b, 0, 4, n2.len());
    assert(n1.len() == n2.len());
    lemma_prefixes_equal(n1, n2, n1.len() as int);
    assert(n1 =~= n1.take(n1.len() as int));
    assert(n2 =~= n2.take(n2.len() as int));
}

proof fn lemma_prefixes_equal(n1: Seq<Seq<u8>>, n2: Seq<Seq<u8>>, i: int)
    requires
        0 <= i <= n1.len() == n2.len(),
        n1.len() < 0x1_0000_0000_0000_0000,
        forall|k: int| 0 <= k < n1.len() ==> #[trigger] n1[k].len() < 0x1_0000_0000_0000_0000,
        forall|k: int| 0 <= k < n2.len() ==> #[trigger] n2[k].len() < 0x1_0000_0000_0000_0000,
        encode_proof(n1) == encode_proof(n2),
    ensures
        n1.take(i) == n2.take(i),
    decreases i,
{
    if i == 0 {
        assert(n1.take(0) =~= n2.take(0));
    } else {
        lemma_prefixes_equal(n1, n2, i - 1);
        lemma_item_at(n1, i - 1);
        lemma_item_at(n2, i - 1);
        assert(n1.take(i) =~= n1.take(i - 1).push(n1[i - 1]));
        assert(n2.take(i) =~= n2.take(i - 1).push(n2[i - 1]));
    }
}

/// Reading the wire form of `e` at the `i`th item finds that item.
proof fn lemma_decode_step(b: Seq<u8>, e: Seq<Seq<u8>>, i: int, pos: int)
    requires
        e.len() > 0,
        fits_cbor(e),
        encode_proof(e) == b,
        0 <= i < e.len(),
        0 <= pos <= b.len(),
        b.subrange(0, pos) == head(4, e.len()) + encode_items(e.take(i)),
    ensures
        header_at(b, pos) matches Some((m, n, start)) && m == 2 && n == e[i].len() && start + n
            <= b.len() && b.subrange(start, start + n) == e[i],
{
    lemma_item_at(e, i);
    assert(b.subrange(0, pos).len() == pos);
}

/// Reading one more byte string item extends the decoded prefix by that item.
proof fn lemma_decode_extend(b: Seq<u8>, pos: int, count: nat, nv: Seq<Seq<u8>>)
    requires
        0 <= pos <= b.len(),
        b.subrange(0, pos) == head(4, count) + encode_items(nv),
        header_at(b, pos) matches Some((m, n, start)) && m == 2 && start + n <= b.len(),
    ensures
        header_at(b, pos) matches Some((m, n, start)) && b.subrange(0, start + n) == head(4, count)
            + encode_items(nv.push(b.subrange(start, start + n))),
{
    let (m, n, start) = header_at(b, pos).unwrap();
    let end = start + n;
    let node = b.subrange(start, end);
    lemma_head_of_header(b, pos);
    lemma_header_advances(b, pos);
    assert(nv.push(node).drop_last() =~= nv);
    assert(b.subrange(0, end) =~= b.subrange(0, pos) + b.subrange(pos, start) + node);
}

/// Reading back the wire form of a proof gives the proof: the wire form of a non-empty
/// list of blocks is accepted, and the only list with that wire form is the list itself.
pub proof fn lemma_round_trip(nodes: Seq<Seq<u8>>)
    requires
        nodes.len() > 0,
        fits_cbor(nodes),
    ensures
        is_encoded_proof(encode_proof(nodes)),
        forall|other: Seq<Seq<u8>>|
            fits_cbor(other) && #[trigger] encode_proof(other) == encode_proof(nodes) ==> other
                == nodes,
{
    assert forall|other: Seq<Seq<u8>>|
        fits_cbor(other) && #[trigger] encode_proof(other) == encode_proof(nodes) implies other
        == nodes by {
        lemma_encoding_injective(other, nodes);
    }
}

/// Appends the bytes of `b`.
fn append_bytes(out: &mut Vec<u8>, b: &[u8])
    ensures
        final(out)@ == old(out)@ + b@,
{
    let mut i: usize = 0;
    while i < b.len()
        invariant
            i <= b@.len(),
            out@ == old(out)@ + b@.subrange(0, i as int),
        decreases b@.len() - i,
    {
        out.push(b[i]);
        assert(out@ =~= old(out)@ + b@.subrange(0, i + 1));
        i = i + 1;
    }
    assert(b@.subrange(0, b@.len() as int) =~= b@);
}

impl Proof {
    /// The wire form of the proof.
    pub fn serialize(&self) -> (r: Vec<u8>)
        ensures
            r@ == encode_proof(self@),
            fits_cbor(self@),
    {
        let nodes = self.nodes();
        let ghost nv = self@;
        let mut out: Vec<u8> = Vec::new();
        write_head(&mut out, 4, nodes.len() as u64);
        let mut i: usize = 0;
        assert(nv.take(0) =~= Seq::<Seq<u8>>::empty());
        while i < nodes.len()
            invariant
                nv == views(nodes@),
                i <= nodes@.len(),
                out@ == head(4, nv.len()) + encode_items(nv.take(i as int)),
                nv.len() < 0x1_0000_0000_0000_0000,
                forall|k: int| 0 <= k < i ==> #[trigger] nv[k].len() < 0x1_0000_0000_0000_0000,
            decreases nodes@.len() - i,
        {
            let node = &nodes[i];
            assert(node@ == nv[i as int]);
            write_head(&mut out, 2, node.len() as u64);
            append_bytes(&mut out, node.as_slice());
            proof {
                lemma_items_take(nv, i as int);
            }
            assert(out@ =~= head(4, nv.len()) + encode_items(nv.take(i + 1)));
            i = i + 1;
        }
        assert(nv.take(nv.len() as int) =~= nv);
        out
    }

    /// Reads a proof from its wire form. Fails with `Malformed` exactly where `bytes`
    /// is not the wire form of a non-empty list of blocks.
    pub fn deserialize(bytes: &[u8]) -> (r: Result<Proof, Error>)
        ensures
            r is Ok <==> is_encoded_proof(bytes@),
            match r {
                Ok(p) => encode_proof(p@) == bytes@,
                Err(e) => e == Error::Malformed,
            },
    {
        let ghost b = bytes@;
        let ghost has = is_encoded_proof(b);
        let ghost e = choose|nodes: Seq<Seq<u8>>|
            nodes.len() > 0 && fits_cbor(nodes) && #[trigger] encode_proof(nodes) == b;
        let len = bytes.len();
        proof {
            if has {
                let hh = head(4, e.len());
                assert(b.subrange(0, hh.len() as int) =~= hh);
                lemma_header_of_head(b, 0, 4, e.len());
            }
        }
        let (m, count, mut pos) = match read_header(bytes, 0) {
            Some(h) => h,
            None => return Err(Error::Malformed),
        };
        if m != 4 || count == 0 {
            return Err(Error::Malformed);
        }
        proof {
            lemma_head_of_header(b, 0);
            assert(Seq::<Seq<u8>>::empty() =~= e.take(0));
        }
        let mut nodes: Vec<Vec<u8>> = Vec::new();
        let mut i: u64 = 0;
        while i < count
            invariant
                len == b.len(),
                b == bytes@,
                has == is_encoded_proof(b),
                pos <= len,
                i <= count,
                views(nodes@).len() == i,
                b.subrange(0, pos as int) == head(4, count as nat) + encode_items(views(nodes@)),
                has ==> e.len() == count && views(nodes@) == e.take(i as int),
                has ==> e.len() > 0 && fits_cbor(e) && encode_proof(e) == b,
                fits_cbor(views(nodes@)),
            decreases count - i,
        {
            proof {
                if has {
                    lemma_decode_step(b, e, i as int, pos as int);
                }
            }
            let (m2, n, start) = match read_header(bytes, pos) {
                Some(h) => h,
                None => return Err(Error::Malformed),
            };
            if m2 != 2 || n > (len - start) as u64 {
                return Err(Error::Malformed);
            }
            let end = start + n as usize;
            let node = copy_bytes(&bytes[start..end]);
            let ghost nv = views(nodes@);
            nodes.push(node);
            proof {
                lemma_decode_extend(b, pos as int, count as nat, nv);
                assert(views(nodes@) =~= nv.push(node@));
                if has {
                    assert(e.take(i + 1) =~= e.take(i as int).push(e[i as int]));
                }
            }
            pos = end;
            i = i + 1;
        }
        if pos != len {
            proof {
                if has {
                    assert(e.take(count as int) =~= e);
                    assert(b.subrange(0, pos as int).len() == b.len());
                }
            }
            return Err(Error::Malformed);
        }
        assert(b.subrange(0, pos as int) =~= b);
        assert(encode_proof(views(nodes@)) == b);
        Ok(Proof::from_chain(nodes))
    }
}

} // verus!
