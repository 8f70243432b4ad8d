use vstd::prelude::*;

verus! {

/// Appends every byte of `b` to `out`.
pub fn append(out: &mut Vec<u8>, b: &[u8])
    ensures
        final(out)@ == old(out)@ + b@,
{
    let ghost o = old(out)@;
    let n: usize = b.len();
    let mut i: usize = 0;
    while i < n
        invariant
            i <= n,
            n == b@.len(),
            out@ == o + b@.take(i as int),
        decreases n - i,
    {
        out.push(b[i]);
        assert(o + b@.take(i + 1) =~= (o + b@.take(i as int)).push(b@[i as int]));
        i = i + 1;
    }
    assert(b@.take(n as int) =~= b@);
}

/// A new vector holding the bytes of `b` from `from` up to `to`.
pub fn copy_range(b: &[u8], from: usize, to: usize) -> (r: Vec<u8>)
    requires
        from <= to <= b@.len(),
    ensures
        r@ == b@.subrange(from as int, to as int),
{
    let mut r: Vec<u8> = Vec::new();
    let mut i: usize = from;
    while i < to
        invariant
            from <= i <= to,
            to <= b@.len(),
            r@ == b@.subrange(from as int, i as int),
        decreases to - i,
    {
        r.push(b[i]);
        assert(b@.subrange(from as int, i + 1) =~= b@.subrange(from as int, i as int).push(b@[i as int]));
        i = i + 1;
    }
    r
}

/// Whether the bytes of `b` from `from` up to `to` begin with `pre`.
pub fn range_starts_with(b: &[u8], from: usize, to: usize, pre: &[u8]) -> (r: bool)
    requires
        from <= to <= b@.len(),
    ensures
        r == (pre@.len() <= to - from && b@.subrange(from as int, from + pre@.len()) == pre@),
{
    let n: usize = pre.len();
    if to - from < n {
        return false;
    }
    let mut i: usize = 0;
    while i < n
        invariant
            i <= n,
            n == pre@.len(),
            from + n <= to <= b@.len(),
            b@.subrange(from as int, from + i) == pre@.take(i as int),
        decreases n - i,
    {
        if b[from + i] != pre[i] {
            assert(b@.subrange(from as int, from + n)[i as int] != pre@[i as int]);
            return false;
        }
        assert(b@.subrange(from as int, from + i + 1) =~= pre@.take(i + 1));
        i = i + 1;
    }
    assert(pre@.take(n as int) =~= pre@);
    true
}

} // verus!
