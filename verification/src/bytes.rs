//! Byte-level helpers shared by the reader, the lexer and the expander.

use vstd::prelude::*;

verus! {

/// First index `i` in `from <= i < s.len()` with `s[i] == b`, or `s.len()`
/// when no such index exists.
pub open spec fn find_from(s: Seq<u8>, from: int, b: u8) -> int
    decreases s.len() - from,
{
    if from < 0 || from >= s.len() {
        s.len() as int
    } else if s[from] == b {
        from
    } else {
        find_from(s, from + 1, b)
    }
}

pub proof fn lemma_find_from_bounds(s: Seq<u8>, from: int, b: u8)
    requires
        0 <= from <= s.len(),
    ensures
        from <= find_from(s, from, b) <= s.len(),
        find_from(s, from, b) < s.len() ==> s[find_from(s, from, b)] == b,
        forall|k: int| from <= k < find_from(s, from, b) ==> s[k] != b,
    decreases s.len() - from,
{
    if from < s.len() && s[from] != b {
        lemma_find_from_bounds(s, from + 1, b);
    }
}

/// `find_from` lands exactly on the first occurrence.
pub proof fn lemma_find_from_at(s: Seq<u8>, from: int, j: int, b: u8)
    requires
        0 <= from <= j < s.len(),
        s[j] == b,
        forall|k: int| from <= k < j ==> s[k] != b,
    ensures
        find_from(s, from, b) == j,
{
    lemma_find_from_bounds(s, from, b);
}

/// Executable twin of `find_from`.
pub fn find_byte(s: &[u8], from: usize, b: u8) -> (r: usize)
    requires
        from <= s@.len(),
    ensures
        r == find_from(s@, from as int, b),
        from <= r <= s@.len(),
{
    let mut i: usize = from;
    while i < s.len()
        invariant
            from <= i <= s@.len(),
            find_from(s@, from as int, b) == find_from(s@, i as int, b),
        decreases s@.len() - i,
    {
        if s[i] == b {
            return i;
        }
        i = i + 1;
    }
    i
}

/// Appends `src[from..to]` to `dst`.
pub fn push_range(dst: &mut Vec<u8>, src: &[u8], from: usize, to: usize)
    requires
        from <= to <= src@.len(),
    ensures
        final(dst)@ == old(dst)@ + src@.subrange(from as int, to as int),
{
    let mut k: usize = from;
    while k < to
        invariant
            from <= k <= to <= src@.len(),
            dst@ == old(dst)@ + src@.subrange(from as int, k as int),
        decreases to - k,
    {
        dst.push(src[k]);
        proof {
            assert(src@.subrange(from as int, k + 1 as int)
                =~= src@.subrange(from as int, k as int).push(src@[k as int]));
        }
        k = k + 1;
    }
    proof {
        assert(dst@ =~= old(dst)@ + src@.subrange(from as int, to as int));
    }
}

/// Appends all of `src` to `dst`.
pub fn push_all(dst: &mut Vec<u8>, src: &[u8])
    ensures
        final(dst)@ == old(dst)@ + src@,
{
    push_range(dst, src, 0, src.len());
    proof {
        assert(src@.subrange(0, src@.len() as int) =~= src@);
    }
}

/// Replaces `v[b..e]` with `rep`, in place.
pub fn replace_range(v: &mut Vec<u8>, b: usize, e: usize, rep: &[u8])
    requires
        b <= e <= old(v)@.len(),
    ensures
        final(v)@ == old(v)@.subrange(0, b as int) + rep@ + old(v)@.subrange(
            e as int,
            old(v)@.len() as int,
        ),
{
    let mut out: Vec<u8> = Vec::new();
    push_range(&mut out, v.as_slice(), 0, b);
    push_all(&mut out, rep);
    push_range(&mut out, v.as_slice(), e, v.len());
    *v = out;
}

} // verus!
