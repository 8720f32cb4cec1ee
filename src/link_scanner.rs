//! Lazy enumeration of the CIDs linked from a CBOR block (tag 42 items).
use vstd::prelude::*;
use crate::cbor::{header_at, lemma_header_advances, read_header};
use crate::content_id::{parse_cid, parsed_cid};

verus! {

/// Largest byte string accepted as the payload of a tag-42 link.
pub const MAX_LINK_BYTES: u64 = 100;

/// The CBOR tag of a CID.
pub const CID_TAG: u64 = 42;

/// What the scanner does at one header.
pub enum ScanStep {
    /// The sequence of links ends here.
    Stop,
    /// No link; scanning goes on at the position with the given count of items left.
    Skip(int, int),
    /// A link; scanning goes on at the position with the given count of items left.
    Link(Seq<u8>, int, int),
}

/// One step of the scan at `pos`, with `rem` items still to consume.
pub open spec fn scan_step(b: Seq<u8>, pos: int, rem: int) -> ScanStep {
    if rem <= 0 {
        ScanStep::Stop
    } else {
        match header_at(b, pos) {
            None => ScanStep::Stop,
            Some((major, v, next)) => {
                if major == 0 || major == 1 || major == 7 {
                    ScanStep::Skip(next, rem - 1)
                } else if major == 2 || major == 3 {
                    if next + v > b.len() {
                        ScanStep::Stop
                    } else {
                        ScanStep::Skip(next + v, rem - 1)
                    }
                } else if major == 4 {
                    ScanStep::Skip(next, rem + v - 1)
                } else if major == 5 {
                    ScanStep::Skip(next, rem + 2 * v - 1)
                } else if v != CID_TAG {
                    ScanStep::Skip(next, rem)
                } else {
                    match header_at(b, next) {
                        None => ScanStep::Stop,
                        Some((m2, n, start)) => {
                            if m2 != 2 || n == 0 || n > MAX_LINK_BYTES || start + n > b.len() {
                                ScanStep::Stop
                            } else {
                                match parsed_cid(b.subrange(start + 1, start + n)) {
                                    None => ScanStep::Stop,
                                    Some(c) => ScanStep::Link(c, start + n, rem - 1),
                                }
                            }
                        }
                    }
                }
            }
        }
    }
}

/// The links found from `pos` on, with `rem` items still to consume, in document order.
pub open spec fn scan(b: Seq<u8>, pos: int, rem: int) -> Seq<Seq<u8>>
    decreases b.len() - pos,
{
    match scan_step(b, pos, rem) {
        ScanStep::Stop => seq![],
        ScanStep::Skip(p, r) => if pos < p {
            scan(b, p, r)
        } else {
            seq![]
        },
        ScanStep::Link(c, p, r) => if pos < p {
            seq![c] + scan(b, p, r)
        } else {
            seq![]
        },
    }
}

/// The links of the block `b`: those of its one top-level item, in document order.
pub open spec fn links(b: Seq<u8>) -> Seq<Seq<u8>> {
    scan(b, 0, 1)
}

/// Each step moves forward and stays inside the bytes.
pub proof fn lemma_step_advances(b: Seq<u8>, pos: int, rem: int)
    ensures
        scan_step(b, pos, rem) matches ScanStep::Skip(p, r) ==> pos < p <= b.len() && r >= rem - 1,
        scan_step(b, pos, rem) matches ScanStep::Link(c, p, r) ==> pos < p <= b.len() && r == rem - 1,
{
    lemma_header_advances(b, pos);
    if let Some((major, v, next)) = header_at(b, pos) {
        lemma_header_advances(b, next);
    }
}

/// Once more items are left than bytes, the count no longer matters: the bytes run out
/// first.
pub proof fn lemma_scan_large_rem(b: Seq<u8>, pos: int, r1: int, r2: int)
    requires
        r1 > b.len() - pos,
        r2 > b.len() - pos,
    ensures
        scan(b, pos, r1) == scan(b, pos, r2),
    decreases b.len() - pos,
{
    lemma_step_advances(b, pos, r1);
    lemma_step_advances(b, pos, r2);
    match (scan_step(b, pos, r1), scan_step(b, pos, r2)) {
        (ScanStep::Skip(pa, qa), ScanStep::Skip(pb, qb)) => {
            assert(pa == pb);
            lemma_scan_large_rem(b, pa, qa, qb);
        },
        (ScanStep::Link(ca, pa, qa), ScanStep::Link(cb, pb, qb)) => {
            lemma_scan_large_rem(b, pa, qa, qb);
        },
        _ => {},
    }
}

/// A scan over a byte string, handing out the CIDs it links to one at a time.
pub struct LinkScanner<'a> {
    bytes: &'a [u8],
    pos: usize,
    remaining: usize,
}

/// `min(v, cap)`.
fn capped(v: u64, cap: usize) -> (r: usize)
    ensures
        r as int == if v >= cap { cap as int } else { v as int },
{
    if v >= cap as u64 {
        cap
    } else {
        v as usize
    }
}

/// `min(a + v, cap)`.
fn add_capped(a: usize, v: u64, cap: usize) -> (r: usize)
    requires
        a <= cap,
    ensures
        r as int == if a + v >= cap { cap as int } else { a + v },
{
    let w = capped(v, cap);
    if w >= cap - a {
        cap
    } else {
        a + w
    }
}

impl<'a> LinkScanner<'a> {
    #[verifier::type_invariant]
    spec fn inv(&self) -> bool {
        &&& self.pos <= self.bytes@.len()
        &&& self.remaining <= self.bytes@.len() - self.pos + 1
    }

    /// The bytes being scanned.
    pub closed spec fn input(&self) -> Seq<u8> {
        self.bytes@
    }

    /// The links that the scanner has yet to hand out.
    pub closed spec fn links_left(&self) -> Seq<Seq<u8>> {
        scan(self.bytes@, self.pos as int, self.remaining as int)
    }

    /// A scanner over all links of `bytes`.
    pub fn new(bytes: &'a [u8]) -> (s: Self)
        ensures
            s.input() == bytes@,
            s.links_left() == links(bytes@),
    {
        LinkScanner { bytes, pos: 0, remaining: 1 }
    }

    /// The next link, or `None` once there is none left.
    pub fn next(&mut self) -> (r: Option<Vec<u8>>)
        ensures
            final(self).input() == old(self).input(),
            old(self).links_left() == match r {
                Some(c) => seq![c@] + final(self).links_left(),
                None => Seq::<Seq<u8>>::empty(),
            },
            r is None ==> final(self).links_left() == Seq::<Seq<u8>>::empty(),
    {
        proof {
            use_type_invariant(&*self);
        }
        let len = self.bytes.len();
        loop
            invariant
                self.input() == old(self).input(),
                self.links_left() == old(self).links_left(),
                len == self.bytes@.len(),
            decreases len - self.pos,
        {
            proof {
                use_type_invariant(&*self);
            }
            let b = self.bytes;
            let pos = self.pos;
            let rem = self.remaining;
            let ghost bs = b@;
            proof {
                lemma_step_advances(bs, pos as int, rem as int);
            }
            if rem == 0 {
                return None;
            }
            let (major, v, next) = match read_header(b, pos) {
                None => {
                    self.remaining = 0;
                    return None;
                },
                Some(h) => h,
            };
            proof {
                lemma_header_advances(bs, pos as int);
            }
            let cap = len - next + 1;
            if major == 0 || major == 1 || major == 7 {
                let r2 = capped((rem - 1) as u64, cap);
                proof {
                    if rem - 1 >= cap {
                        lemma_scan_large_rem(bs, next as int, rem - 1, r2 as int);
                    }
                }
                *self = LinkScanner { bytes: b, pos: next, remaining: r2 };
            } else if major == 2 || major == 3 {
                if v > (len - next) as u64 {
                    self.remaining = 0;
                    return None;
                }
                let pb = next + v as usize;
                let cap2 = len - pb + 1;
                let r2 = capped((rem - 1) as u64, cap2);
                proof {
                    if rem - 1 > len - pb {
                        lemma_scan_large_rem(bs, pb as int, rem - 1, r2 as int);
                    }
                }
                *self = LinkScanner { bytes: b, pos: pb, remaining: r2 };
            } else if major == 4 {
                let r2 = add_capped(capped((rem - 1) as u64, cap), v, cap);
                proof {
                    if rem - 1 + v >= cap {
                        lemma_scan_large_rem(bs, next as int, rem + v - 1, r2 as int);
                    }
                }
                *self = LinkScanner { bytes: b, pos: next, remaining: r2 };
            } else if major == 5 {
                let r1 = add_capped(capped((rem - 1) as u64, cap), v, cap);
                let r2 = add_capped(r1, v, cap);
                proof {
                    if rem - 1 + 2 * v >= cap {
                        lemma_scan_large_rem(bs, next as int, rem + 2 * v - 1, r2 as int);
                    }
                }
                *self = LinkScanner { bytes: b, pos: next, remaining: r2 };
            } else if v != CID_TAG {
                let r2 = capped(rem as u64, cap);
                proof {
                    if rem >= cap {
                        lemma_scan_large_rem(bs, next as int, rem as int, r2 as int);
                    }
                }
                *self = LinkScanner { bytes: b, pos: next, remaining: r2 };
            } else {
                let (m2, n, start) = match read_header(b, next) {
                    None => {
                        self.remaining = 0;
                        return None;
                    },
                    Some(h) => h,
                };
                proof {
                    lemma_header_advances(bs, next as int);
                }
                if m2 != 2 || n == 0 || n > MAX_LINK_BYTES || n > (len - start) as u64 {
                    self.remaining = 0;
                    return None;
                }
                let end = start + n as usize;
                let c = match parse_cid(&b[start + 1..end]) {
                    None => {
                        self.remaining = 0;
                        return None;
                    },
                    Some(c) => c,
                };
                let cap2 = len - end + 1;
                let r2 = capped((rem - 1) as u64, cap2);
                proof {
                    if rem - 1 > len - end {
                        lemma_scan_large_rem(bs, end as int, rem - 1, r2 as int);
                    }
                }
                *self = LinkScanner { bytes: b, pos: end, remaining: r2 };
                return Some(c);
            }
        }
    }
}

} // verus!

verus! {

/// Whether `target` is among the links of `block`.
pub fn contains_link(block: &[u8], target: &[u8]) -> (r: bool)
    ensures
        r == links(block@).contains(target@),
{
    let mut scanner = LinkScanner::new(block);
    let ghost mut seen: Seq<Seq<u8>> = Seq::empty();
    loop
        invariant
            links(block@) == seen + scanner.links_left(),
            !seen.contains(target@),
        decreases scanner.links_left().len(),
    {
        let ghost before = scanner.links_left();
        match scanner.next() {
            None => {
                assert(seen + scanner.links_left() =~= seen);
                return false;
            },
            Some(c) => {
                if crate::bytes::bytes_eq(&c, target) {
                    assert((seen + before)[seen.len() as int] == c@);
                    return true;
                }
                proof {
                    assert(seen + before =~= seen.push(c@) + scanner.links_left());
                    seen = seen.push(c@);
                }
            },
        }
    }
}

} // verus!
