//! The recording side of a block store and the search that builds proofs from what
//! it recorded.
use vstd::prelude::*;
use crate::bytes::{bytes_eq, copy_bytes};
use crate::content_id::{block_cid, cid_of_block};
use crate::error::Error;
use crate::inclusion::{chain_valid, linked, views, Proof};
use crate::link_scanner::{links, LinkScanner};

verus! {

/// A witness table: `(cid, bytes)` pairs in the order in which they were first observed.
pub type Witnesses = Seq<(Seq<u8>, Seq<u8>)>;

/// The table holds an entry under `cid`.
pub open spec fn has_key(t: Witnesses, cid: Seq<u8>) -> bool {
    exists|i: int| 0 <= i < t.len() && #[trigger] t[i].0 == cid
}

/// No CID appears twice in the table.
pub open spec fn keys_unique(t: Witnesses) -> bool {
    forall|i: int, j: int| 0 <= i < j < t.len() ==> #[trigger] t[i].0 != #[trigger] t[j].0
}

/// The table after observing `bytes` under `cid`: the first observation of a CID wins.
pub open spec fn observe(t: Witnesses, cid: Seq<u8>, bytes: Seq<u8>) -> Witnesses {
    if has_key(t, cid) {
        t
    } else {
        t.push((cid, bytes))
    }
}

/// The bytes of some entry of the table are `bytes`.
pub open spec fn has_block(t: Witnesses, bytes: Seq<u8>) -> bool {
    exists|j: int| 0 <= j < t.len() && #[trigger] t[j].1 == bytes
}

/// Each block after the leaf was observed.
pub open spec fn blocks_witnessed(t: Witnesses, nodes: Seq<Seq<u8>>) -> bool {
    forall|i: int| 1 <= i < nodes.len() ==> has_block(t, #[trigger] nodes[i])
}

/// No block of `nodes` but the last has the CID `root`.
pub open spec fn stops_at_first(nodes: Seq<Seq<u8>>, root: Seq<u8>) -> bool {
    forall|i: int| 0 <= i < nodes.len() - 1 ==> block_cid(#[trigger] nodes[i]) != root
}

/// Every observed block that links to the top of `nodes` is itself part of `nodes`
/// above the leaf, or the top's CID already occurs lower in `nodes`. In an acyclic DAG
/// neither can happen, so then no observed block links to the top.
pub open spec fn top_is_maximal(t: Witnesses, nodes: Seq<Seq<u8>>) -> bool {
    forall|j: int|
        0 <= j < t.len() && #[trigger] links(t[j].1).contains(block_cid(nodes.last())) ==> (
        exists|m: int| 1 <= m < nodes.len() && #[trigger] nodes[m] == t[j].1) || (exists|m: int|
            0 <= m < nodes.len() - 1 && #[trigger] block_cid(nodes[m]) == block_cid(
            nodes.last(),
        ))
}

/// What a search for a proof of `leaf`, up to `root` where one is given, may return
/// over the table `t`.
pub open spec fn search_result(
    t: Witnesses,
    leaf: Seq<u8>,
    root: Option<Seq<u8>>,
    nodes: Seq<Seq<u8>>,
) -> bool {
    &&& nodes.len() > 0
    &&& nodes[0] == leaf
    &&& chain_valid(nodes)
    &&& blocks_witnessed(t, nodes)
    &&& match root {
        Some(r) => stops_at_first(nodes, r) && (block_cid(nodes.last()) != r ==> top_is_maximal(
            t,
            nodes,
        )),
        None => top_is_maximal(t, nodes),
    }
}

pub open spec fn entry_view(e: (Vec<u8>, Vec<u8>)) -> (Seq<u8>, Seq<u8>) {
    (e.0@, e.1@)
}

/// Records the blocks read from or written to the store `base` and builds proofs from
/// them.
pub struct ProofGenerator<'s, BS> {
    base: &'s BS,
    visited: Vec<(Vec<u8>, Vec<u8>)>,
}

impl<'s, BS> ProofGenerator<'s, BS> {
    #[verifier::type_invariant]
    spec fn inv(&self) -> bool {
        keys_unique(self.witnessed())
    }

    /// The witness table.
    pub closed spec fn witnessed(&self) -> Witnesses {
        self.visited@.map_values(|e: (Vec<u8>, Vec<u8>)| entry_view(e))
    }

    /// The underlying store.
    pub closed spec fn store(&self) -> &'s BS {
        self.base
    }

    /// A generator over `base` that has observed nothing yet.
    pub fn new(base: &'s BS) -> (r: Self)
        ensures
            r.witnessed() == Seq::<(Seq<u8>, Seq<u8>)>::empty(),
            r.store() == base,
    {
        let r = ProofGenerator { base, visited: Vec::new() };
        assert(r.witnessed() =~= Seq::<(Seq<u8>, Seq<u8>)>::empty());
        r
    }

    /// The underlying store, for the reads and writes that pass through.
    pub fn base(&self) -> (r: &'s BS)
        ensures
            r == self.store(),
    {
        self.base
    }

    /// The number of observed blocks.
    pub fn len(&self) -> (r: usize)
        ensures
            r == self.witnessed().len(),
    {
        self.visited.len()
    }

    /// The index of the entry under `cid`, if any.
    fn find(&self, cid: &[u8]) -> (r: Option<usize>)
        ensures
            match r {
                Some(i) => i < self.witnessed().len() && self.witnessed()[i as int].0 == cid@,
                None => !has_key(self.witnessed(), cid@),
            },
    {
        let mut i: usize = 0;
        while i < self.visited.len()
            invariant
                i <= self.visited@.len(),
                forall|k: int| 0 <= k < i ==> self.witnessed()[k].0 != cid@,
            decreases self.visited@.len() - i,
        {
            if bytes_eq(&self.visited[i].0, cid) {
                return Some(i);
            }
            i = i + 1;
        }
        None
    }

    /// Whether a block was observed under `cid`.
    pub fn contains(&self, cid: &[u8]) -> (r: bool)
        ensures
            r == has_key(self.witnessed(), cid@),
    {
        self.find(cid).is_some()
    }

    /// Observes `bytes` under `cid`; an entry already held under `cid` is kept.
    pub fn record(&mut self, cid: Vec<u8>, bytes: Vec<u8>)
        ensures
            final(self).witnessed() == observe(old(self).witnessed(), cid@, bytes@),
            final(self).store() == old(self).store(),
    {
        proof {
            use_type_invariant(&*self);
        }
        if self.find(&cid).is_none() {
            let ghost before = self.witnessed();
            let ghost c = cid@;
            let ghost b = bytes@;
            let mut visited: Vec<(Vec<u8>, Vec<u8>)> = Vec::new();
            std::mem::swap(&mut visited, &mut self.visited);
            assert(visited@.map_values(|e: (Vec<u8>, Vec<u8>)| entry_view(e)) == before);
            visited.push((cid, bytes));
            let ghost after = visited@.map_values(|e: (Vec<u8>, Vec<u8>)| entry_view(e));
            assert(after =~= before.push((c, b)));
            assert(keys_unique(after)) by {
                assert forall|i: int, j: int| 0 <= i < j < after.len() implies after[i].0
                    != after[j].0 by {
                    if j == before.len() {
                        assert(before[i].0 == after[i].0);
                    }
                }
            }
            *self = ProofGenerator { base: self.base, visited };
        }
    }

    /// Observes the answer of the store to a read of `cid` and hands it back unchanged.
    pub fn record_read(&mut self, cid: Vec<u8>, found: Option<Vec<u8>>) -> (r: Option<Vec<u8>>)
        ensures
            r == found,
            final(self).witnessed() == match found {
                Some(b) => observe(old(self).witnessed(), cid@, b@),
                None => old(self).witnessed(),
            },
            final(self).store() == old(self).store(),
    {
        match found {
            Some(b) => {
                let copy = copy_bytes(&b);
                self.record(cid, copy);
                Some(b)
            },
            None => None,
        }
    }

    /// Observes a block about to be written and returns its CID.
    pub fn record_put(&mut self, bytes: &[u8]) -> (r: Vec<u8>)
        ensures
            r@ == block_cid(bytes@),
            final(self).witnessed() == observe(old(self).witnessed(), r@, bytes@),
            final(self).store() == old(self).store(),
    {
        let cid = cid_of_block(bytes);
        let key = copy_bytes(&cid);
        self.record(key, copy_bytes(bytes));
        cid
    }
}


/// A block equal to `b` stands in `nv` above the leaf.
pub open spec fn in_chain(nv: Seq<Seq<u8>>, b: Seq<u8>) -> bool {
    exists|m: int| 1 <= m < nv.len() && #[trigger] nv[m] == b
}

/// Some block of `nv` below the top has the CID `l`.
pub open spec fn passed(nv: Seq<Seq<u8>>, l: Seq<u8>) -> bool {
    exists|m: int| 0 <= m < nv.len() - 1 && #[trigger] block_cid(nv[m]) == l
}

/// The entry `j` was scanned: it is in the chain, or each of its links is in the
/// cache or was already climbed past.
spec fn settled(t: Witnesses, j: int, nv: Seq<Seq<u8>>, cv: Seq<Seq<u8>>) -> bool {
    in_chain(nv, t[j].1) || forall|l: Seq<u8>|
        #[trigger] links(t[j].1).contains(l) ==> cv.contains(l) || passed(nv, l)
}

/// Each cache entry names an already scanned entry that links to the entry's child.
spec fn cache_sound(t: Witnesses, cv: Seq<Seq<u8>>, pv: Seq<usize>, next: int) -> bool {
    &&& cv.len() == pv.len()
    &&& forall|k: int|
        0 <= k < cv.len() ==> #[trigger] pv[k] < next && links(t[pv[k] as int].1).contains(cv[k])
}

proof fn lemma_settled_push(t: Witnesses, j: int, nv: Seq<Seq<u8>>, cv: Seq<Seq<u8>>, b: Seq<u8>)
    requires
        nv.len() > 0,
        settled(t, j, nv, cv),
    ensures
        settled(t, j, nv.push(b), cv),
{
    let nv2 = nv.push(b);
    if in_chain(nv, t[j].1) {
        let m = choose|m: int| 1 <= m < nv.len() && #[trigger] nv[m] == t[j].1;
        assert(nv2[m] == t[j].1);
    } else {
        assert forall|l: Seq<u8>| #[trigger] links(t[j].1).contains(l) implies cv.contains(l)
            || passed(nv2, l) by {
            if passed(nv, l) {
                let m = choose|m: int| 0 <= m < nv.len() - 1 && #[trigger] block_cid(nv[m]) == l;
                assert(block_cid(nv2[m]) == l);
            }
        }
    }
}

proof fn lemma_settled_grow(t: Witnesses, j: int, nv: Seq<Seq<u8>>, cv: Seq<Seq<u8>>, cv2: Seq<Seq<u8>>)
    requires
        settled(t, j, nv, cv),
        forall|l: Seq<u8>| cv.contains(l) ==> #[trigger] cv2.contains(l),
    ensures
        settled(t, j, nv, cv2),
{
}

proof fn lemma_settled_take(t: Witnesses, j: int, nv: Seq<Seq<u8>>, cv: Seq<Seq<u8>>, k: int, b: Seq<u8>)
    requires
        nv.len() > 0,
        0 <= k < cv.len(),
        cv[k] == block_cid(nv.last()),
        settled(t, j, nv, cv),
    ensures
        settled(t, j, nv.push(b), cv.remove(k)),
{
    let nv2 = nv.push(b);
    let cv2 = cv.remove(k);
    lemma_settled_push(t, j, nv, cv, b);
    if !in_chain(nv2, t[j].1) {
        assert forall|l: Seq<u8>| #[trigger] links(t[j].1).contains(l) implies cv2.contains(l)
            || passed(nv2, l) by {
            if l == cv[k] {
                assert(block_cid(nv2[nv.len() - 1]) == l);
            } else if cv.contains(l) {
                let i = choose|i: int| 0 <= i < cv.len() && cv[i] == l;
                if i < k {
                    assert(cv2[i] == l);
                } else {
                    assert(cv2[i - 1] == l);
                }
            }
        }
    }
}

impl<'s, BS> ProofGenerator<'s, BS> {
    /// Scans the entries from `*next` on until one links to `cur`, and returns its
    /// index. The links of each entry that does not are added to the cache, where no
    /// entry for them is held yet.
    fn scan_for_parent(
        &self,
        cur: &[u8],
        next: &mut usize,
        children: &mut Vec<Vec<u8>>,
        parents: &mut Vec<usize>,
        Ghost(nv): Ghost<Seq<Seq<u8>>>,
    ) -> (r: Option<usize>)
        requires
            nv.len() > 0,
            *old(next) <= self.witnessed().len(),
            cache_sound(self.witnessed(), views(old(children)@), old(parents)@, *old(next) as int),
            forall|j: int|
                0 <= j < *old(next) ==> #[trigger] settled(
                    self.witnessed(),
                    j,
                    nv,
                    views(old(children)@),
                ),
        ensures
            *old(next) < *final(next) <= self.witnessed().len() || (*old(next) == *final(next)
                == self.witnessed().len()),
            cache_sound(self.witnessed(), views(final(children)@), final(parents)@, *final(next) as int),
            forall|l: Seq<u8>|
                views(old(children)@).contains(l) ==> #[trigger] views(final(children)@).contains(l),
            match r {
                Some(j) => {
                    &&& *old(next) <= j
                    &&& j + 1 == *final(next)
                    &&& links(self.witnessed()[j as int].1).contains(cur@)
                    &&& forall|i: int|
                        0 <= i < j ==> #[trigger] settled(
                            self.witnessed(),
                            i,
                            nv,
                            views(final(children)@),
                        )
                },
                None => {
                    &&& *final(next) == self.witnessed().len()
                    &&& !views(old(children)@).contains(cur@) ==> !views(final(children)@).contains(cur@)
                    &&& forall|i: int|
                        0 <= i < *final(next) ==> #[trigger] settled(
                            self.witnessed(),
                            i,
                            nv,
                            views(final(children)@),
                        )
                },
            },
    {
        let ghost t = self.witnessed();
        let ghost cv0 = views(old(children)@);
        let len = self.visited.len();
        while *next < len
            invariant
                len == t.len(),
                cv0 == views(old(children)@),
                !cv0.contains(cur@) ==> !views(children@).contains(cur@),
                t == self.witnessed(),
                t.len() == self.visited@.len(),
                nv.len() > 0,
                *old(next) <= *next <= t.len(),
                cache_sound(t, views(children@), parents@, *next as int),
                forall|l: Seq<u8>| cv0.contains(l) ==> #[trigger] views(children@).contains(l),
                forall|j: int| 0 <= j < *next ==> #[trigger] settled(t, j, nv, views(children@)),
            decreases t.len() - *next,
        {
            let j = *next;
            let block: &Vec<u8> = &self.visited[j].1;
            assert(block@ == t[j as int].1);
            let mut scanner = LinkScanner::new(block.as_slice());
            let mut buffer: Vec<Vec<u8>> = Vec::new();
            loop
                invariant
                    t == self.witnessed(),
                    t.len() == self.visited@.len(),
                    len == t.len(),
                    cv0 == views(old(children)@),
                    !cv0.contains(cur@) ==> !views(children@).contains(cur@),
                    j == *next,
                    *old(next) <= j < t.len(),
                    block@ == t[j as int].1,
                    cache_sound(t, views(children@), parents@, j as int),
                    forall|l: Seq<u8>| cv0.contains(l) ==> #[trigger] views(children@).contains(l),
                    forall|jj: int| 0 <= jj < j ==> #[trigger] settled(t, jj, nv, views(children@)),
                    scanner.input() == block@,
                    links(block@) == views(buffer@) + scanner.links_left(),
                    !views(buffer@).contains(cur@),
                ensures
                    links(block@) == views(buffer@),
                    !views(buffer@).contains(cur@),
                decreases scanner.links_left().len(),
            {
                let ghost before = scanner.links_left();
                match scanner.next() {
                    None => {
                        assert(views(buffer@) + scanner.links_left() =~= views(buffer@));
                        break;
                    },
                    Some(c) => {
                        if bytes_eq(&c, cur) {
                            assert(links(block@)[views(buffer@).len() as int] == c@);
                            *next = j + 1;
                            assert(cv0 == views(old(children)@));
                            assert forall|l: Seq<u8>| views(old(children)@).contains(l) implies #[trigger] views(children@).contains(l) by {
                                assert(cv0.contains(l));
                            }
                            return Some(j);
                        }
                        let ghost bv = views(buffer@);
                        buffer.push(c);
                        assert(views(buffer@) =~= bv.push(c@));
                        assert(bv + before =~= views(buffer@) + scanner.links_left());
                    },
                }
            }
            // the whole block was scanned without finding `cur`
            let ghost bufv = views(buffer@);
            assert(bufv == links(block@));
            let ghost cv_before = views(children@);
            let mut i: usize = 0;
            while i < buffer.len()
                invariant
                    !bufv.contains(cur@),
                    !cv0.contains(cur@) ==> !views(children@).contains(cur@),
                    bufv == views(buffer@),
                    bufv == links(t[j as int].1),
                    j < t.len(),
                    i <= buffer@.len(),
                    cache_sound(t, views(children@), parents@, j + 1),
                    forall|l: Seq<u8>| cv_before.contains(l) ==> #[trigger] views(children@).contains(l),
                    forall|k: int| 0 <= k < i ==> views(children@).contains(#[trigger] bufv[k]),
                decreases buffer@.len() - i,
            {
                let l = &buffer[i];
                assert(bufv[i as int] == l@);
                let found = find_child(children, l);
                if let Some(k) = found {
                    assert(views(children@)[k as int] == l@);
                }
                if found.is_none() {
                    let ghost cvb = views(children@);
                    let ghost pvb = parents@;
                    children.push(copy_bytes(l));
                    parents.push(j);
                    assert(views(children@) =~= cvb.push(l@));
                    assert(links(t[j as int].1).contains(bufv[i as int]));
                    assert forall|ll: Seq<u8>| cvb.contains(ll) implies #[trigger] views(children@).contains(ll) by {
                        let x = choose|x: int| 0 <= x < cvb.len() && cvb[x] == ll;
                        assert(views(children@)[x] == ll);
                    }
                    assert(views(children@)[cvb.len() as int] == l@);
                    assert(l@ != cur@);
                    assert(!cv0.contains(cur@) ==> !views(children@).contains(cur@)) by {
                        if !cv0.contains(cur@) && views(children@).contains(cur@) {
                            let x = choose|x: int| 0 <= x < views(children@).len() && views(children@)[x] == cur@;
                            if x < cvb.len() {
                                assert(cvb[x] == cur@);
                            }
                        }
                    }
                }
                i = i + 1;
            }
            proof {
                assert forall|l: Seq<u8>| #[trigger] links(t[j as int].1).contains(l) implies views(children@).contains(l) by {
                    let x = choose|x: int| 0 <= x < bufv.len() && bufv[x] == l;
                    assert(views(children@).contains(bufv[x]));
                }
                assert(settled(t, j as int, nv, views(children@)));
                assert forall|jj: int| 0 <= jj < j implies #[trigger] settled(t, jj, nv, views(children@)) by {
                    lemma_settled_grow(t, jj, nv, cv_before, views(children@));
                }
            }
            *next = j + 1;
        }
        None
    }
}

/// The index of the cache entry for `child`, if any.
fn find_child(children: &Vec<Vec<u8>>, child: &[u8]) -> (r: Option<usize>)
    ensures
        match r {
            Some(k) => k < children@.len() && children@[k as int]@ == child@,
            None => !views(children@).contains(child@),
        },
{
    let mut k: usize = 0;
    while k < children.len()
        invariant
            k <= children@.len(),
            forall|x: int| 0 <= x < k ==> children@[x]@ != child@,
        decreases children@.len() - k,
    {
        if bytes_eq(&children[k], child) {
            return Some(k);
        }
        k = k + 1;
    }
    None
}


/// The view of an optional byte string.
pub open spec fn opt_view(o: Option<&[u8]>) -> Option<Seq<u8>> {
    match o {
        Some(b) => Some(b@),
        None => None,
    }
}

proof fn lemma_chain_push(nv: Seq<Seq<u8>>, b: Seq<u8>)
    requires
        nv.len() > 0,
        chain_valid(nv),
        linked(nv.last(), b),
    ensures
        chain_valid(nv.push(b)),
{
    let nv2 = nv.push(b);
    assert forall|i: int| 0 <= i < nv2.len() - 1 implies #[trigger] linked(nv2[i], nv2[i + 1]) by {
        if i < nv.len() - 1 {
            assert(linked(nv[i], nv[i + 1]));
        }
    }
}

proof fn lemma_witnessed_push(t: Witnesses, nv: Seq<Seq<u8>>, j: int)
    requires
        0 <= j < t.len(),
        blocks_witnessed(t, nv),
    ensures
        blocks_witnessed(t, nv.push(t[j].1)),
{
    let nv2 = nv.push(t[j].1);
    assert forall|i: int| 1 <= i < nv2.len() implies has_block(t, #[trigger] nv2[i]) by {
        if i < nv.len() {
            assert(has_block(t, nv[i]));
        } else {
            assert(t[j].1 == nv2[i]);
        }
    }
}

proof fn lemma_stops_push(nv: Seq<Seq<u8>>, b: Seq<u8>, r: Seq<u8>)
    requires
        nv.len() > 0,
        stops_at_first(nv, r),
        block_cid(nv.last()) != r,
    ensures
        stops_at_first(nv.push(b), r),
{
    let nv2 = nv.push(b);
    assert forall|i: int| 0 <= i < nv2.len() - 1 implies block_cid(#[trigger] nv2[i]) != r by {
        if i < nv.len() - 1 {
            assert(block_cid(nv[i]) != r);
        }
    }
}

proof fn lemma_top_maximal(t: Witnesses, nv: Seq<Seq<u8>>, cv: Seq<Seq<u8>>)
    requires
        nv.len() > 0,
        forall|j: int| 0 <= j < t.len() ==> #[trigger] settled(t, j, nv, cv),
        !cv.contains(block_cid(nv.last())),
    ensures
        top_is_maximal(t, nv),
{
    let top = block_cid(nv.last());
    assert forall|j: int|
        0 <= j < t.len() && #[trigger] links(t[j].1).contains(top) implies (exists|m: int|
        1 <= m < nv.len() && #[trigger] nv[m] == t[j].1) || (exists|m: int|
        0 <= m < nv.len() - 1 && #[trigger] block_cid(nv[m]) == top) by {
        assert(settled(t, j, nv, cv));
        if !in_chain(nv, t[j].1) {
            assert(passed(nv, top));
        }
    }
}

impl<'s, BS> ProofGenerator<'s, BS> {
    /// Builds a proof for the block `bytes`: the block itself, then observed blocks,
    /// each linking to the one before, up to `root` where it is given and reached, else
    /// as high as the observed blocks connect. Fails with `NodeNotFound` where `bytes`
    /// was never observed.
    ///
    /// The path found first is taken: it need not be the shortest. The CID climbed to
    /// from each block is computed from the block's bytes, so the links followed are the
    /// ones that validation checks, whatever CID a block was recorded under.
    pub fn generate_proof_raw(&self, bytes: Vec<u8>, root: Option<&[u8]>) -> (r: Result<
        Proof,
        Error,
    >)
        ensures
            r is Ok <==> has_key(self.witnessed(), block_cid(bytes@)),
            match r {
                Ok(p) => search_result(self.witnessed(), bytes@, opt_view(root), p@),
                Err(e) => e == Error::NodeNotFound,
            },
    {
        let ghost t = self.witnessed();
        let ghost leaf = bytes@;
        let first = cid_of_block(&bytes);
        if self.find(&first).is_none() {
            return Err(Error::NodeNotFound);
        }
        let mut nodes: Vec<Vec<u8>> = Vec::new();
        nodes.push(bytes);
        assert(views(nodes@) =~= seq![leaf]);
        let mut cur = first;
        let mut children: Vec<Vec<u8>> = Vec::new();
        let mut parents: Vec<usize> = Vec::new();
        let mut next: usize = 0;
        assert(views(children@) =~= Seq::<Seq<u8>>::empty());
        loop
            invariant
                t == self.witnessed(),
                t.len() == self.visited@.len(),
                nodes@.len() > 0,
                views(nodes@)[0] == leaf,
                cur@ == block_cid(views(nodes@).last()),
                chain_valid(views(nodes@)),
                blocks_witnessed(t, views(nodes@)),
                opt_view(root) matches Some(rv) ==> stops_at_first(views(nodes@), rv),
                next <= t.len(),
                cache_sound(t, views(children@), parents@, next as int),
                forall|j: int| 0 <= j < next ==> #[trigger] settled(t, j, views(nodes@), views(children@)),
            ensures
                search_result(t, leaf, opt_view(root), views(nodes@)),
            decreases t.len() - next, children@.len(),
        {
            let ghost nv = views(nodes@);
            if let Some(r) = root {
                if bytes_eq(r, &cur) {
                    break;
                }
            }
            if let Some(k) = find_child(&children, &cur) {
                let ghost cv = views(children@);
                let ghost pv = parents@;
                let j = parents.remove(k);
                children.remove(k);
                assert(views(children@) =~= cv.remove(k as int));
                assert(pv[k as int] < next && links(t[j as int].1).contains(cv[k as int]));
                let parent = copy_bytes(&self.visited[j].1);
                cur = cid_of_block(&parent);
                nodes.push(parent);
                proof {
                    assert(views(nodes@) =~= nv.push(t[j as int].1));
                    lemma_chain_push(nv, t[j as int].1);
                    lemma_witnessed_push(t, nv, j as int);
                    if let Some(rv) = opt_view(root) {
                        lemma_stops_push(nv, t[j as int].1, rv);
                    }
                    assert forall|i: int| 0 <= i < next implies #[trigger] settled(
                        t,
                        i,
                        views(nodes@),
                        views(children@),
                    ) by {
                        lemma_settled_take(t, i, nv, cv, k as int, t[j as int].1);
                    }
                    assert forall|x: int| 0 <= x < views(children@).len() implies #[trigger] parents@[x] < next
                        && links(t[parents@[x] as int].1).contains(views(children@)[x]) by {
                        if x < k {
                            assert(pv[x] < next && links(t[pv[x] as int].1).contains(cv[x]));
                        } else {
                            assert(pv[x + 1] < next && links(t[pv[x + 1] as int].1).contains(cv[x + 1]));
                        }
                    }
                }
                continue;
            }
            match self.scan_for_parent(&cur, &mut next, &mut children, &mut parents, Ghost(nv)) {
                Some(j) => {
                    let parent = copy_bytes(&self.visited[j].1);
                    cur = cid_of_block(&parent);
                    nodes.push(parent);
                    proof {
                        assert(views(nodes@) =~= nv.push(t[j as int].1));
                        lemma_chain_push(nv, t[j as int].1);
                        lemma_witnessed_push(t, nv, j as int);
                        if let Some(rv) = opt_view(root) {
                            lemma_stops_push(nv, t[j as int].1, rv);
                        }
                        assert forall|i: int| 0 <= i < next implies #[trigger] settled(
                            t,
                            i,
                            views(nodes@),
                            views(children@),
                        ) by {
                            if i < j {
                                lemma_settled_push(t, i, nv, views(children@), t[j as int].1);
                            } else {
                                assert(views(nodes@)[nv.len() as int] == t[i].1);
                            }
                        }
                    }
                },
                None => {
                    proof {
                        lemma_top_maximal(t, nv, views(children@));
                    }
                    break;
                },
            }
        }
        Ok(Proof::from_chain(nodes))
    }
}


/// Relies on `forest_encoding::to_vec` (dag-cbor through `serde`): the item's CBOR
/// bytes, or the encoder's error message.
#[verifier::external_body]
fn encode_item<I: serde::Serialize>(item: &I) -> (r: Result<Vec<u8>, String>) {
    match forest_encoding::to_vec(item) {
        Ok(b) => Ok(b),
        Err(e) => Err(e.to_string()),
    }
}

impl<'s, BS> ProofGenerator<'s, BS> {
    /// Encodes `item` to CBOR, then proves it as high as the observed blocks connect.
    pub fn generate_proof<I: serde::Serialize>(&self, item: &I) -> (r: Result<Proof, Error>)
        ensures
            match r {
                Ok(p) => p@.len() > 0 && has_key(self.witnessed(), block_cid(p@[0]))
                    && search_result(self.witnessed(), p@[0], None, p@),
                Err(e) => e is NodeNotFound || e is Encoding,
            },
    {
        match encode_item(item) {
            Ok(bytes) => self.generate_proof_raw(bytes, None),
            Err(m) => Err(Error::Encoding(m)),
        }
    }

    /// Encodes `item` to CBOR, then proves it up to the block with the CID `root`.
    pub fn generate_proof_to_cid<I: serde::Serialize>(&self, item: &I, root: &[u8]) -> (r: Result<
        Proof,
        Error,
    >)
        ensures
            match r {
                Ok(p) => p@.len() > 0 && has_key(self.witnessed(), block_cid(p@[0]))
                    && search_result(self.witnessed(), p@[0], Some(root@), p@),
                Err(e) => e is NodeNotFound || e is Encoding,
            },
    {
        match encode_item(item) {
            Ok(bytes) => self.generate_proof_raw(bytes, Some(root)),
            Err(m) => Err(Error::Encoding(m)),
        }
    }
}

} // verus!
