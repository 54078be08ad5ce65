//! Small verified helpers on byte vectors.

use vstd::prelude::*;

verus! {

/// Copies `src[start..end]` into a fresh vector.
pub(crate) fn copy_range(src: &Vec<u8>, start: usize, end: usize) -> (r: Vec<u8>)
    requires
        start <= end,
        end <= src@.len(),
    ensures
        r@ == src@.subrange(start as int, end as int),
{
    let mut r: Vec<u8> = Vec::new();
    let mut i: usize = start;
    proof {
        assert(r@ =~= src@.subrange(start as int, start as int));
    }
    while i < end
        invariant
            start <= i <= end,
            end <= src@.len(),
            r@ == src@.subrange(start as int, i as int),
        decreases end - i,
    {
        r.push(src[i]);
        i = i + 1;
        proof {
            assert(r@ =~= src@.subrange(start as int, i as int));
        }
    }
    r
}

/// Appends all of `src` to `dst`.
pub(crate) fn append_bytes(dst: &mut Vec<u8>, src: &Vec<u8>)
    ensures
        final(dst)@ == old(dst)@ + src@,
{
    let mut i: usize = 0;
    proof {
        assert(dst@ =~= old(dst)@ + src@.subrange(0, 0));
    }
    while i < src.len()
        invariant
            i <= src@.len(),
            dst@ == old(dst)@ + src@.subrange(0, i as int),
        decreases src@.len() - i,
    {
        dst.push(src[i]);
        i = i + 1;
        proof {
            assert(dst@ =~= old(dst)@ + src@.subrange(0, i as int));
        }
    }
    proof {
        assert(src@.subrange(0, src@.len() as int) =~= src@);
    }
}

/// Removes the first `k` bytes of `v`, keeping the rest in order.
pub(crate) fn drop_prefix(v: &mut Vec<u8>, k: usize)
    requires
        k <= old(v)@.len(),
    ensures
        final(v)@ == old(v)@.skip(k as int),
{
    let tail = v.split_off(k);
    proof {
        assert(tail@ =~= old(v)@.skip(k as int));
    }
    *v = tail;
}

} // verus!
