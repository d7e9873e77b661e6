//! Byte-level helpers: big-endian arithmetic on nonces and in-buffer copies.

use vstd::prelude::*;

verus! {

/// The unsigned value of two big-endian bytes.
pub open spec fn be16(hi: u8, lo: u8) -> int {
    hi * 256 + lo
}

/// The successor of a byte string read as one big-endian unsigned number,
/// wrapping around to all zeroes when every byte is at its maximum.
pub open spec fn succ_be(s: Seq<u8>) -> Seq<u8>
    decreases s.len(),
{
    if s.len() == 0 {
        s
    } else if s.last() == 255 {
        succ_be(s.drop_last()).push(0)
    } else {
        s.update(s.len() - 1, (s.last() + 1) as u8)
    }
}

/// `succ_be` applied `n` times.
pub open spec fn succ_be_n(s: Seq<u8>, n: nat) -> Seq<u8>
    decreases n,
{
    if n == 0 {
        s
    } else {
        succ_be(succ_be_n(s, (n - 1) as nat))
    }
}

/// One big-endian step keeps the length of the byte string.
pub proof fn lemma_succ_be_len(s: Seq<u8>)
    ensures
        succ_be(s).len() == s.len(),
    decreases s.len(),
{
    if s.len() > 0 && s.last() == 255 {
        lemma_succ_be_len(s.drop_last());
    }
}

/// Advance a big-endian counter by one, wrapping on overflow.
#[verifier::loop_isolation(false)]
pub fn increment_be(v: &mut Vec<u8>)
    ensures
        final(v)@ == succ_be(old(v)@),
{
    let ghost orig = v@;
    let mut i: usize = v.len();
    proof {
        assert(orig.subrange(0, orig.len() as int) =~= orig);
        assert(v@ =~= orig.subrange(0, orig.len() as int) + Seq::new(0nat, |j: int| 0u8));
        assert(succ_be(orig) =~= succ_be(orig.subrange(0, orig.len() as int)) + Seq::new(
            0nat,
            |j: int| 0u8,
        ));
    }
    loop
        invariant
            i <= orig.len(),
            v@.len() == orig.len(),
            v@ == orig.subrange(0, i as int) + Seq::new((orig.len() - i) as nat, |j: int| 0u8),
            succ_be(orig) == succ_be(orig.subrange(0, i as int)) + Seq::new(
                (orig.len() - i) as nat,
                |j: int| 0u8,
            ),
        decreases i,
    {
        if i == 0 {
            proof {
                assert(succ_be(orig) =~= v@);
            }
            return ;
        }
        let b = v[i - 1];
        if b == 255 {
            v[i - 1] = 0;
            proof {
                let pre = orig.subrange(0, i as int);
                assert(pre.last() == 255);
                assert(pre.drop_last() =~= orig.subrange(0, i - 1));
                assert(v@ =~= orig.subrange(0, i - 1) + Seq::new(
                    (orig.len() - (i - 1)) as nat,
                    |j: int| 0u8,
                ));
                assert(succ_be(pre) + Seq::new((orig.len() - i) as nat, |j: int| 0u8) =~= succ_be(
                    orig.subrange(0, i - 1),
                ) + Seq::new((orig.len() - (i - 1)) as nat, |j: int| 0u8)) by {
                    lemma_succ_be_len(orig.subrange(0, i - 1));
                }
            }
            i = i - 1;
        } else {
            v[i - 1] = b + 1;
            proof {
                let pre = orig.subrange(0, i as int);
                assert(pre.last() == b);
                assert(succ_be(pre) =~= pre.update(i - 1, (b + 1) as u8));
                assert(v@ =~= succ_be(pre) + Seq::new((orig.len() - i) as nat, |j: int| 0u8));
                assert(v@ =~= succ_be(orig));
            }
            return ;
        }
    }
}

/// Copy all of `src` into `dst` starting at position `at`, leaving every
/// other byte of `dst` as it was.
#[verifier::loop_isolation(false)]
pub fn copy_into(dst: &mut Vec<u8>, at: usize, src: &Vec<u8>)
    requires
        at + src@.len() <= old(dst)@.len(),
    ensures
        final(dst)@.len() == old(dst)@.len(),
        forall|i: int| 0 <= i < at ==> final(dst)@[i] == old(dst)@[i],
        forall|i: int| at <= i < at + src@.len() ==> final(dst)@[i] == src@[i - at],
        forall|i: int|
            at + src@.len() <= i < old(dst)@.len() ==> final(dst)@[i] == old(dst)@[i],
{
    let dlen: usize = dst.len();
    let mut j: usize = 0;
    while j < src.len()
        invariant
            j <= src@.len(),
            at + src@.len() <= dlen,
            dst@.len() == dlen,
            forall|i: int| 0 <= i < at ==> dst@[i] == old(dst)@[i],
            forall|i: int| at <= i < at + j ==> dst@[i] == src@[i - at],
            forall|i: int| at + j <= i < old(dst)@.len() ==> dst@[i] == old(dst)@[i],
        decreases src@.len() - j,
    {
        dst[at + j] = src[j];
        j = j + 1;
    }
}

/// Copy `count` bytes beginning at `from` to the front of `v`; bytes at or
/// beyond `count` keep their old values.
#[verifier::loop_isolation(false)]
pub fn compact_front(v: &mut Vec<u8>, from: usize, count: usize)
    requires
        from + count <= old(v)@.len(),
    ensures
        final(v)@.len() == old(v)@.len(),
        forall|i: int| 0 <= i < count ==> final(v)@[i] == old(v)@[from + i],
        forall|i: int| count <= i < old(v)@.len() ==> final(v)@[i] == old(v)@[i],
{
    let vlen: usize = v.len();
    let mut j: usize = 0;
    while j < count
        invariant
            j <= count,
            from + count <= vlen,
            v@.len() == vlen,
            forall|i: int| 0 <= i < j ==> v@[i] == old(v)@[from + i],
            forall|i: int| j <= i < old(v)@.len() ==> v@[i] == old(v)@[i],
        decreases count - j,
    {
        let b = v[from + j];
        v[j] = b;
        j = j + 1;
    }
}

/// The bytes of `src` from `from` to `from + count`, as a fresh vector.
#[verifier::loop_isolation(false)]
pub fn copy_range(src: &Vec<u8>, from: usize, count: usize) -> (r: Vec<u8>)
    requires
        from + count <= src@.len(),
    ensures
        r@ == src@.subrange(from as int, from + count),
{
    let slen: usize = src.len();
    let mut r: Vec<u8> = Vec::new();
    let mut j: usize = 0;
    while j < count
        invariant
            j <= count,
            from + count <= slen,
            src@.len() == slen,
            r@.len() == j,
            forall|i: int| 0 <= i < j ==> r@[i] == src@[from + i],
        decreases count - j,
    {
        r.push(src[from + j]);
        j = j + 1;
    }
    proof {
        assert(r@ =~= src@.subrange(from as int, from + count));
    }
    r
}

} // verus!
