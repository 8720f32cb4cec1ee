//! Reading CBOR item headers, with the canonical-width check of dag-cbor.
use vstd::prelude::*;

verus! {

/// `256^n`.
pub open spec fn pow256(n: nat) -> nat
    decreases n,
{
    if n == 0 {
        1
    } else {
        256 * pow256((n - 1) as nat)
    }
}

/// The big-endian unsigned value of the bytes `b`.
pub open spec fn be_value(b: Seq<u8>) -> nat
    decreases b.len(),
{
    if b.len() == 0 {
        0
    } else {
        (be_value(b.drop_last()) * 256 + b.last()) as nat
    }
}

/// The number of bytes that follow the initial byte for the additional-information
/// code `low` (24 to 27).
pub open spec fn arg_width(low: int) -> int {
    if low == 24 {
        1
    } else if low == 25 {
        2
    } else if low == 26 {
        4
    } else {
        8
    }
}

/// The least value that may be written with the code `low` (24 to 27): a smaller one
/// fits a shorter form, and canonical CBOR uses the shortest.
pub open spec fn arg_min(low: int) -> nat {
    if low == 24 {
        24
    } else if low == 25 {
        0x100
    } else if low == 26 {
        0x1_0000
    } else {
        0x1_0000_0000
    }
}

/// The header of the CBOR item that starts at `pos` in `b`: its major type, its
/// argument and the position right after the header. `None` where `b` ends inside the
/// header, where the code is reserved or indefinite (28 to 31), or where the argument
/// is not written in its shortest form.
pub open spec fn header_at(b: Seq<u8>, pos: int) -> Option<(u8, nat, int)> {
    if pos < 0 || pos >= b.len() {
        None
    } else {
        let first = b[pos];
        let major = first / 32;
        let low = first % 32;
        if low < 24 {
            Some((major, low as nat, pos + 1))
        } else if low <= 27 {
            let end = pos + 1 + arg_width(low as int);
            if end > b.len() {
                None
            } else {
                let v = be_value(b.subrange(pos + 1, end));
                if v < arg_min(low as int) {
                    None
                } else {
                    Some((major, v, end))
                }
            }
        } else {
            None
        }
    }
}

/// A header lies inside the bytes and is at least one byte long.
pub proof fn lemma_header_advances(b: Seq<u8>, pos: int)
    ensures
        header_at(b, pos) matches Some((major, v, next)) ==> pos < next <= b.len() && major
            < 8,
{
}

proof fn lemma_be_value_bound(b: Seq<u8>)
    ensures
        be_value(b) < pow256(b.len()),
    decreases b.len(),
{
    if b.len() > 0 {
        lemma_be_value_bound(b.drop_last());
        let v = be_value(b.drop_last());
        let p = pow256((b.len() - 1) as nat);
        assert(v * 256 + b.last() < 256 * p) by (nonlinear_arith)
            requires
                v < p,
                b.last() < 256,
        ;
    }
}

/// Reads `width` bytes at `start` as a big-endian integer.
fn read_be(b: &[u8], start: usize, width: usize) -> (r: u64)
    requires
        width <= 8,
        start + width <= b@.len(),
    ensures
        r as nat == be_value(b@.subrange(start as int, start + width)),
{
    let n = b.len();
    let mut v: u64 = 0;
    let mut i: usize = 0;
    proof {
        reveal_with_fuel(pow256, 9);
    }
    assert(pow256(8) == 0x1_0000_0000_0000_0000nat);
    while i < width
        invariant
            i <= width <= 8,
            start + width <= n,
            n == b@.len(),
            v as nat == be_value(b@.subrange(start as int, start + i)),
        decreases width - i,
    {
        proof {
            let s = b@.subrange(start as int, start + i + 1);
            assert(s.drop_last() =~= b@.subrange(start as int, start + i));
            lemma_be_value_bound(b@.subrange(start as int, start + i));
            lemma_pow256_mono(i as nat, 7);
            let p = pow256(i as nat);
            assert(v * 256 + b@[start + i as int] < 0x1_0000_0000_0000_0000) by (nonlinear_arith)
                requires
                    v < p,
                    p <= pow256(7),
                    pow256(7) == 0x100_0000_0000_0000nat,
                    b@[start + i as int] < 256,
            {
            }
        }
        v = v * 256 + b[start + i] as u64;
        i = i + 1;
    }
    v
}

proof fn lemma_pow256_mono(a: nat, c: nat)
    requires
        a <= c,
    ensures
        pow256(a) <= pow256(c),
        pow256(7) == 0x100_0000_0000_0000nat,
    decreases c,
{
    reveal_with_fuel(pow256, 8);
    if a < c {
        lemma_pow256_mono(a, (c - 1) as nat);
    }
}

/// Reads the header of the CBOR item at `pos`.
pub fn read_header(b: &[u8], pos: usize) -> (r: Option<(u8, u64, usize)>)
    ensures
        match r {
            Some((major, v, next)) => header_at(b@, pos as int) == Some((major, v as nat, next as int)),
            None => header_at(b@, pos as int) is None,
        },
{
    if pos >= b.len() {
        return None;
    }
    let first = b[pos];
    let major = first / 32;
    let low = first % 32;
    if low < 24 {
        return Some((major, low as u64, pos + 1));
    }
    if low > 27 {
        return None;
    }
    let (width, min): (usize, u64) = if low == 24 {
        (1, 24)
    } else if low == 25 {
        (2, 0x100)
    } else if low == 26 {
        (4, 0x1_0000)
    } else {
        (8, 0x1_0000_0000)
    };
    if width > b.len() - pos - 1 {
        return None;
    }
    let v = read_be(b, pos + 1, width);
    if v < min {
        None
    } else {
        Some((major, v, pos + 1 + width))
    }
}


/// The `n` bytes of `v` modulo `256^n`, most significant first.
pub open spec fn be_bytes(v: nat, n: nat) -> Seq<u8>
    decreases n,
{
    if n == 0 {
        seq![]
    } else {
        be_bytes(v / 256, (n - 1) as nat).push((v % 256) as u8)
    }
}

/// The canonical (shortest) header of an item of major type `major` with argument `v`.
pub open spec fn head(major: u8, v: nat) -> Seq<u8> {
    let m = major as int * 32;
    if v < 24 {
        seq![(m + v) as u8]
    } else if v < 0x100 {
        seq![(m + 24) as u8] + be_bytes(v, 1)
    } else if v < 0x1_0000 {
        seq![(m + 25) as u8] + be_bytes(v, 2)
    } else if v < 0x1_0000_0000 {
        seq![(m + 26) as u8] + be_bytes(v, 4)
    } else {
        seq![(m + 27) as u8] + be_bytes(v, 8)
    }
}

proof fn lemma_be_bytes_len(v: nat, n: nat)
    ensures
        be_bytes(v, n).len() == n,
    decreases n,
{
    if n > 0 {
        lemma_be_bytes_len(v / 256, (n - 1) as nat);
    }
}

proof fn lemma_be_value_of_bytes(v: nat, n: nat)
    requires
        v < pow256(n),
    ensures
        be_value(be_bytes(v, n)) == v,
    decreases n,
{
    if n > 0 {
        let s = be_bytes(v, n);
        let p = pow256((n - 1) as nat);
        assert(s.drop_last() =~= be_bytes(v / 256, (n - 1) as nat));
        assert(v / 256 < p) by (nonlinear_arith)
            requires
                v < 256 * p,
        ;
        lemma_be_value_of_bytes(v / 256, (n - 1) as nat);
        assert((v / 256) * 256 + v % 256 == v) by (nonlinear_arith);
    }
}

proof fn lemma_bytes_of_be_value(s: Seq<u8>)
    ensures
        be_bytes(be_value(s), s.len()) == s,
    decreases s.len(),
{
    if s.len() > 0 {
        let w = be_value(s.drop_last());
        let v = be_value(s);
        lemma_bytes_of_be_value(s.drop_last());
        let l = s.last() as nat;
        assert(v == w * 256 + l);
        assert((w * 256 + l) / 256 == w && (w * 256 + l) % 256 == l) by (nonlinear_arith)
            requires
                l < 256,
        ;
        assert(be_bytes(v, s.len()) =~= s);
    }
}

/// The header read back from a canonical header is the one that was written.
pub proof fn lemma_header_of_head(b: Seq<u8>, pos: int, major: u8, v: nat)
    requires
        major < 8,
        v < 0x1_0000_0000_0000_0000,
        0 <= pos,
        pos + head(major, v).len() <= b.len(),
        b.subrange(pos, pos + head(major, v).len()) == head(major, v),
    ensures
        header_at(b, pos) == Some((major, v, pos + head(major, v).len())),
{
    let h = head(major, v);
    assert(b[pos] == h[0]);
    reveal_with_fuel(pow256, 9);
    let n: nat = if v < 24 {
        0
    } else if v < 0x100 {
        1
    } else if v < 0x1_0000 {
        2
    } else if v < 0x1_0000_0000 {
        4
    } else {
        8
    };
    lemma_be_bytes_len(v, n);
    if n > 0 {
        assert(b.subrange(pos + 1, pos + 1 + n) =~= h.subrange(1, 1 + n as int));
        assert(h.subrange(1, 1 + n as int) =~= be_bytes(v, n));
        lemma_be_value_of_bytes(v, n);
    }
}

/// A header that is read is the canonical header of what it holds.
pub proof fn lemma_head_of_header(b: Seq<u8>, pos: int)
    ensures
        header_at(b, pos) matches Some((major, v, next)) ==> b.subrange(pos, next) == head(
            major,
            v,
        ),
{
    if let Some((major, v, next)) = header_at(b, pos) {
        let first = b[pos];
        let low = first % 32;
        if low >= 24 {
            let s = b.subrange(pos + 1, next);
            lemma_bytes_of_be_value(s);
            lemma_be_value_bound(s);
            reveal_with_fuel(pow256, 9);
            assert(b.subrange(pos, next) =~= seq![first] + s);
        } else {
            assert(b.subrange(pos, next) =~= seq![first]);
        }
    }
}

/// Appends the `n` bytes of `v`, most significant first.
fn push_be(out: &mut Vec<u8>, v: u64, n: usize)
    requires
        n <= 8,
    ensures
        final(out)@ == old(out)@ + be_bytes(v as nat, n as nat),
    decreases n,
{
    if n > 0 {
        push_be(out, v / 256, n - 1);
        out.push((v % 256) as u8);
        assert(final(out)@ =~= old(out)@ + be_bytes(v as nat, n as nat));
    } else {
        assert(final(out)@ =~= old(out)@ + be_bytes(v as nat, n as nat));
    }
}

/// Appends the canonical header of an item of major type `major` with argument `v`.
pub fn write_head(out: &mut Vec<u8>, major: u8, v: u64)
    requires
        major < 8,
    ensures
        final(out)@ == old(out)@ + head(major, v as nat),
{
    let m = major * 32;
    if v < 24 {
        out.push(m + v as u8);
        assert(final(out)@ =~= old(out)@ + head(major, v as nat));
    } else {
        let (low, n): (u8, usize) = if v < 0x100 {
            (24, 1)
        } else if v < 0x1_0000 {
            (25, 2)
        } else if v < 0x1_0000_0000 {
            (26, 4)
        } else {
            (27, 8)
        };
        out.push(m + low);
        push_be(out, v, n);
        assert(final(out)@ =~= old(out)@ + head(major, v as nat));
    }
}

} // verus!
