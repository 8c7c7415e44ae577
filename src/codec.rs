//! Big-endian byte encoding of the integers in a snapshot.

use vstd::prelude::*;

verus! {

/// The eight bytes of `x`, most significant first.
pub open spec fn be_bytes(x: u64) -> Seq<u8> {
    seq![
        (x >> 56u64) as u8,
        (x >> 48u64) as u8,
        (x >> 40u64) as u8,
        (x >> 32u64) as u8,
        (x >> 24u64) as u8,
        (x >> 16u64) as u8,
        (x >> 8u64) as u8,
        x as u8,
    ]
}

/// The indices one after another, each as eight bytes.
pub open spec fn encode_indices(s: Seq<usize>) -> Seq<u8>
    decreases s.len(),
{
    if s.len() == 0 {
        Seq::empty()
    } else {
        encode_indices(s.drop_last()) + be_bytes(s.last() as u64)
    }
}

/// Appends the eight bytes of `x`, most significant first.
pub fn push_u64(out: &mut Vec<u8>, x: u64)
    ensures
        final(out)@ == old(out)@ + be_bytes(x),
{
    out.push((x >> 56u64) as u8);
    out.push((x >> 48u64) as u8);
    out.push((x >> 40u64) as u8);
    out.push((x >> 32u64) as u8);
    out.push((x >> 24u64) as u8);
    out.push((x >> 16u64) as u8);
    out.push((x >> 8u64) as u8);
    out.push(x as u8);
    assert(out@ =~= old(out)@ + be_bytes(x));
}

/// Appends each index as eight bytes, in order.
pub fn push_indices(out: &mut Vec<u8>, s: &Vec<usize>)
    ensures
        final(out)@ == old(out)@ + encode_indices(s@),
{
    let mut i: usize = 0;
    assert(s@.take(0) =~= Seq::<usize>::empty());
    assert(old(out)@ + Seq::<u8>::empty() =~= old(out)@);
    while i < s.len()
        invariant
            0 <= i <= s@.len(),
            out@ == old(out)@ + encode_indices(s@.take(i as int)),
        decreases s@.len() - i,
    {
        push_u64(out, s[i] as u64);
        proof {
            let next = s@.take(i as int + 1);
            assert(next.drop_last() =~= s@.take(i as int));
            assert(next.last() == s@[i as int]);
            assert(old(out)@ + encode_indices(s@.take(i as int)) + be_bytes(s@[i as int] as u64)
                =~= old(out)@ + encode_indices(next));
        }
        i = i + 1;
    }
    assert(s@.take(s@.len() as int) =~= s@);
}

/// Reads the eight bytes at `pos` as one integer, most significant first.
pub fn read_u64(bytes: &Vec<u8>, pos: usize) -> (r: u64)
    requires
        pos + 8 <= bytes@.len(),
    ensures
        be_bytes(r) == bytes@.subrange(pos as int, pos + 8),
{
    let _n: usize = bytes.len();
    let x0 = bytes[pos];
    let x1 = bytes[pos + 1];
    let x2 = bytes[pos + 2];
    let x3 = bytes[pos + 3];
    let x4 = bytes[pos + 4];
    let x5 = bytes[pos + 5];
    let x6 = bytes[pos + 6];
    let x7 = bytes[pos + 7];
    let r: u64 = (x0 as u64) << 56u64 | (x1 as u64) << 48u64 | (x2 as u64) << 40u64 | (x3 as u64)
        << 32u64 | (x4 as u64) << 24u64 | (x5 as u64) << 16u64 | (x6 as u64) << 8u64 | (x7 as u64);
    assert(((r >> 56u64) as u8) == x0 && ((r >> 48u64) as u8) == x1 && ((r >> 40u64) as u8) == x2
        && ((r >> 32u64) as u8) == x3 && ((r >> 24u64) as u8) == x4 && ((r >> 16u64) as u8) == x5
        && ((r >> 8u64) as u8) == x6 && (r as u8) == x7) by (bit_vector)
        requires
            r == (x0 as u64) << 56u64 | (x1 as u64) << 48u64 | (x2 as u64) << 40u64 | (x3 as u64)
                << 32u64 | (x4 as u64) << 24u64 | (x5 as u64) << 16u64 | (x6 as u64) << 8u64
                | (x7 as u64),
    ;
    assert(be_bytes(r) =~= bytes@.subrange(pos as int, pos + 8));
    r
}

/// Distinct integers have distinct encodings.
pub proof fn lemma_be_bytes_injective(a: u64, b: u64)
    requires
        be_bytes(a) == be_bytes(b),
    ensures
        a == b,
{
    assert(be_bytes(a)[0] == be_bytes(b)[0] && be_bytes(a)[1] == be_bytes(b)[1]
        && be_bytes(a)[2] == be_bytes(b)[2] && be_bytes(a)[3] == be_bytes(b)[3]
        && be_bytes(a)[4] == be_bytes(b)[4] && be_bytes(a)[5] == be_bytes(b)[5]
        && be_bytes(a)[6] == be_bytes(b)[6] && be_bytes(a)[7] == be_bytes(b)[7]);
    assert(a == b) by (bit_vector)
        requires
            (a >> 56u64) as u8 == (b >> 56u64) as u8,
            (a >> 48u64) as u8 == (b >> 48u64) as u8,
            (a >> 40u64) as u8 == (b >> 40u64) as u8,
            (a >> 32u64) as u8 == (b >> 32u64) as u8,
            (a >> 24u64) as u8 == (b >> 24u64) as u8,
            (a >> 16u64) as u8 == (b >> 16u64) as u8,
            (a >> 8u64) as u8 == (b >> 8u64) as u8,
            a as u8 == b as u8,
    ;
}

/// The encoding of indices is eight bytes per index, the `k`-th at `8 * k`.
pub proof fn lemma_encode_indices(s: Seq<usize>)
    ensures
        encode_indices(s).len() == 8 * s.len(),
        forall|k: int|
            0 <= k < s.len() ==> #[trigger] encode_indices(s).subrange(8 * k, 8 * k + 8)
                == be_bytes(s[k] as u64),
    decreases s.len(),
{
    if s.len() > 0 {
        let d = s.drop_last();
        lemma_encode_indices(d);
        assert forall|k: int| 0 <= k < s.len() implies #[trigger] encode_indices(s).subrange(
            8 * k,
            8 * k + 8,
        ) == be_bytes(s[k] as u64) by {
            if k < s.len() - 1 {
                assert(encode_indices(s).subrange(8 * k, 8 * k + 8) =~= encode_indices(d).subrange(
                    8 * k,
                    8 * k + 8,
                ));
                assert(d[k] == s[k]);
            } else {
                assert(encode_indices(s).subrange(8 * k, 8 * k + 8) =~= be_bytes(s.last() as u64));
            }
        }
    }
}

/// Reads `count` indices of eight bytes each from `start`; none where a value
/// does not fit in `usize`. When the bytes there encode `want`, gives `want`.
pub fn read_indices(
    bytes: &Vec<u8>,
    start: usize,
    count: usize,
    Ghost(ok0): Ghost<bool>,
    Ghost(want): Ghost<Seq<usize>>,
) -> (r: Option<Vec<usize>>)
    requires
        start + 8 * count <= bytes@.len(),
        ok0 ==> want.len() == count && bytes@.subrange(start as int, start + 8 * count)
            == encode_indices(want),
    ensures
        match r {
            Some(v) => v@.len() == count && bytes@.subrange(start as int, start + 8 * count)
                == encode_indices(v@),
            None => true,
        },
        ok0 ==> r is Some && r->0@ == want,
{
    let _n: usize = bytes.len();
    let mut v: Vec<usize> = Vec::new();
    let mut k: usize = 0;
    let mut pos: usize = start;
    proof {
        lemma_encode_indices(want);
        assert(bytes@.subrange(start as int, start as int) =~= encode_indices(v@));
        assert(want.take(0) =~= v@);
    }
    while k < count
        invariant
            start + 8 * count <= bytes@.len(),
            bytes@.len() <= usize::MAX,
            k <= count,
            pos == start + 8 * k,
            v@.len() == k,
            bytes@.subrange(start as int, pos as int) == encode_indices(v@),
            ok0 ==> want.len() == count && bytes@.subrange(start as int, start + 8 * count)
                == encode_indices(want),
            ok0 ==> v@ == want.take(k as int),
            encode_indices(want).len() == 8 * want.len(),
            forall|q: int|
                0 <= q < want.len() ==> #[trigger] encode_indices(want).subrange(8 * q, 8 * q + 8)
                    == be_bytes(want[q] as u64),
        decreases count - k,
    {
        let w = read_u64(bytes, pos);
        proof {
            if ok0 {
                assert(bytes@.subrange(pos as int, pos + 8) =~= encode_indices(want).subrange(
                    8 * k,
                    8 * k + 8,
                ));
                lemma_be_bytes_injective(w, want[k as int] as u64);
            }
        }
        if w > usize::MAX as u64 {
            return None;
        }
        let ghost before = v@;
        v.push(w as usize);
        proof {
            assert(v@.drop_last() =~= before);
            assert(bytes@.subrange(start as int, pos + 8) =~= bytes@.subrange(start as int, pos as int)
                + bytes@.subrange(pos as int, pos + 8));
            if ok0 {
                assert(v@ =~= want.take(k + 1));
            }
        }
        pos = pos + 8;
        k = k + 1;
    }
    proof {
        if ok0 {
            assert(v@ =~= want);
        }
    }
    Some(v)
}

} // verus!
