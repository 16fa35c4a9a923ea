//! The line reader: splits a source into physical lines, folds
//! backslash-continued lines into logical lines, and numbers each logical
//! line with the number of its first physical line (starting at 1).

use vstd::prelude::*;
use crate::bytes::{find_from, lemma_find_from_bounds, find_byte, push_range, push_all};

verus! {

pub const NEWLINE: u8 = 10;

pub const BACKSLASH: u8 = 92;

/// A physical line is continued when it ends in a backslash.
pub open spec fn ends_backslash(l: Seq<u8>) -> bool {
    l.len() > 0 && l[l.len() - 1] == BACKSLASH
}

/// The continued line without its trailing backslash.
pub open spec fn strip_backslash(l: Seq<u8>) -> Seq<u8> {
    l.subrange(0, l.len() - 1)
}

/// Physical lines of `s` from `pos` on, where `start` is the beginning of
/// the line being scanned. Splits on newline; like `str::lines`, a final
/// newline does not open an empty last line.
pub open spec fn split_acc(s: Seq<u8>, pos: int, start: int) -> Seq<Seq<u8>>
    decreases s.len() - pos,
{
    if !(0 <= start <= pos <= s.len()) {
        Seq::empty()
    } else if pos == s.len() {
        if start < pos {
            seq![s.subrange(start, pos)]
        } else {
            Seq::empty()
        }
    } else if s[pos] == NEWLINE {
        seq![s.subrange(start, pos)] + split_acc(s, pos + 1, pos + 1)
    } else {
        split_acc(s, pos + 1, start)
    }
}

/// The physical lines of a source.
pub open spec fn split_lines(s: Seq<u8>) -> Seq<Seq<u8>> {
    split_acc(s, 0, 0)
}

/// Logical lines of the physical lines `ls` from index `i` on, where the
/// current folded group began at index `start` and `acc` holds its already
/// stripped segments. A group still open at the end of the source yields
/// nothing.
pub open spec fn fold_acc(ls: Seq<Seq<u8>>, i: int, start: int, acc: Seq<u8>) -> Seq<(int, Seq<u8>)>
    decreases ls.len() - i,
{
    if !(0 <= start <= i) || i >= ls.len() {
        Seq::empty()
    } else if ends_backslash(ls[i]) {
        fold_acc(ls, i + 1, start, acc + strip_backslash(ls[i]))
    } else {
        seq![(start + 1, acc + ls[i])] + fold_acc(ls, i + 1, i + 1, Seq::empty())
    }
}

/// The logical lines of a sequence of physical lines.
pub open spec fn fold_lines(ls: Seq<Seq<u8>>) -> Seq<(int, Seq<u8>)> {
    fold_acc(ls, 0, 0, Seq::empty())
}

/// The logical lines of a source, numbered from 1.
pub open spec fn logical_lines(s: Seq<u8>) -> Seq<(int, Seq<u8>)> {
    fold_lines(split_lines(s))
}

/// View of a vector of physical lines.
pub open spec fn lines_view(v: Seq<Vec<u8>>) -> Seq<Seq<u8>> {
    v.map_values(|x: Vec<u8>| x@)
}

/// View of the reader's result.
pub open spec fn numbered_view(v: Seq<(usize, Vec<u8>)>) -> Seq<(int, Seq<u8>)> {
    v.map_values(|p: (usize, Vec<u8>)| (p.0 as int, p.1@))
}

/// One splitting step: from a line start, the line runs to the next
/// newline (or to the end of the source).
proof fn lemma_split_step(s: Seq<u8>, pos: int, start: int)
    requires
        0 <= start <= pos <= s.len(),
        forall|k: int| start <= k < pos ==> s[k] != NEWLINE,
    ensures
        ({
            let f = find_from(s, pos, NEWLINE);
            split_acc(s, pos, start) == if f == s.len() {
                if start < s.len() {
                    seq![s.subrange(start, s.len() as int)]
                } else {
                    Seq::<Seq<u8>>::empty()
                }
            } else {
                seq![s.subrange(start, f)] + split_acc(s, f + 1, f + 1)
            }
        }),
    decreases s.len() - pos,
{
    lemma_find_from_bounds(s, pos, NEWLINE);
    if pos == s.len() {
    } else if s[pos] == NEWLINE {
    } else {
        lemma_split_step(s, pos + 1, start);
    }
}

/// Splits a source into its physical lines.
fn split_physical(source: &[u8]) -> (r: Vec<Vec<u8>>)
    ensures
        lines_view(r@) == split_lines(source@),
{
    let mut r: Vec<Vec<u8>> = Vec::new();
    let mut pos: usize = 0;
    proof {
        assert(lines_view(r@) =~= Seq::<Seq<u8>>::empty());
        assert(split_lines(source@) =~= lines_view(r@) + split_acc(source@, 0, 0));
    }
    while pos < source.len()
        invariant
            pos <= source@.len(),
            split_lines(source@) == lines_view(r@) + split_acc(source@, pos as int, pos as int),
        decreases source@.len() - pos,
    {
        let f = find_byte(source, pos, NEWLINE);
        proof {
            lemma_split_step(source@, pos as int, pos as int);
            lemma_find_from_bounds(source@, pos as int, NEWLINE);
        }
        let mut line: Vec<u8> = Vec::new();
        push_range(&mut line, source, pos, f);
        let ghost old_r = r@;
        r.push(line);
        proof {
            assert(lines_view(r@) =~= lines_view(old_r).push(
                source@.subrange(pos as int, f as int)));
        }
        if f == source.len() {
            proof {
                assert(split_lines(source@) =~= lines_view(r@) + split_acc(
                    source@, source@.len() as int, source@.len() as int));
            }
            pos = f;
        } else {
            proof {
                assert(split_lines(source@) =~= lines_view(r@) + split_acc(
                    source@, f + 1, f + 1));
            }
            pos = f + 1;
        }
    }
    proof {
        assert(split_lines(source@) =~= lines_view(r@));
    }
    r
}

pub const SLASH: u8 = 47;

pub const STAR: u8 = 42;

/// First index `j` at or after `from` where the bytes `c1 c2` stand next
/// to each other, or the length of `s` when they never do.
pub open spec fn find_pair(s: Seq<u8>, from: int, c1: u8, c2: u8) -> int
    decreases s.len() - from,
{
    if from < 0 || from + 1 >= s.len() {
        s.len() as int
    } else if s[from] == c1 && s[from + 1] == c2 {
        from
    } else {
        find_pair(s, from + 1, c1, c2)
    }
}

pub proof fn lemma_find_pair_bounds(s: Seq<u8>, from: int, c1: u8, c2: u8)
    requires
        0 <= from <= s.len(),
    ensures
        from <= find_pair(s, from, c1, c2) <= s.len(),
        find_pair(s, from, c1, c2) < s.len() ==> {
            &&& find_pair(s, from, c1, c2) + 1 < s.len()
            &&& s[find_pair(s, from, c1, c2)] == c1
            &&& s[find_pair(s, from, c1, c2) + 1] == c2
        },
    decreases s.len() - from,
{
    if from + 1 < s.len() && !(s[from] == c1 && s[from + 1] == c2) {
        lemma_find_pair_bounds(s, from + 1, c1, c2);
    }
}

fn find_pair_idx(s: &[u8], from: usize, c1: u8, c2: u8) -> (r: usize)
    requires
        from <= s@.len(),
    ensures
        r == find_pair(s@, from as int, c1, c2),
        from <= r <= s@.len(),
        r < s@.len() ==> r + 1 < s@.len(),
{
    proof {
        lemma_find_pair_bounds(s@, from as int, c1, c2);
    }
    let mut i: usize = from;
    while i < s.len() && i + 1 < s.len() && !(s[i] == c1 && s[i + 1] == c2)
        invariant
            from <= i,
            i <= s@.len(),
            find_pair(s@, from as int, c1, c2) == find_pair(s@, i as int, c1, c2),
        decreases s@.len() - i,
    {
        i = i + 1;
    }
    if i < s.len() && i + 1 < s.len() {
        i
    } else {
        s.len()
    }
}

/// `s` with each `/*`-to-`*/` comment removed; an unclosed `/*` is kept
/// verbatim to the end.
pub open spec fn strip_block_comments(s: Seq<u8>, i: int) -> Seq<u8>
    decreases s.len() - i,
    via strip_block_comments_dec
{
    if i < 0 || i >= s.len() {
        Seq::empty()
    } else if i + 1 < s.len() && s[i] == SLASH && s[i + 1] == STAR {
        let j = find_pair(s, i + 2, STAR, SLASH);
        if j == s.len() {
            s.subrange(i, s.len() as int)
        } else {
            strip_block_comments(s, j + 2)
        }
    } else {
        seq![s[i]] + strip_block_comments(s, i + 1)
    }
}

#[via_fn]
proof fn strip_block_comments_dec(s: Seq<u8>, i: int) {
    if 0 <= i && i + 1 < s.len() {
        lemma_find_pair_bounds(s, i + 2, STAR, SLASH);
    }
}

/// `s` with each `//`-to-end-of-line comment removed; newlines stay.
pub open spec fn strip_line_comments(s: Seq<u8>, i: int) -> Seq<u8>
    decreases s.len() - i,
    via strip_line_comments_dec
{
    if i < 0 || i >= s.len() {
        Seq::empty()
    } else if i + 1 < s.len() && s[i] == SLASH && s[i + 1] == SLASH {
        let j = crate::bytes::find_from(s, i + 2, NEWLINE);
        if j == s.len() {
            Seq::empty()
        } else {
            strip_line_comments(s, j)
        }
    } else {
        seq![s[i]] + strip_line_comments(s, i + 1)
    }
}

#[via_fn]
proof fn strip_line_comments_dec(s: Seq<u8>, i: int) {
    if 0 <= i && i + 1 < s.len() {
        crate::bytes::lemma_find_from_bounds(s, i + 2, NEWLINE);
    }
}

/// `s` with block comments removed first, then line comments.
pub open spec fn spec_strip_comments(s: Seq<u8>) -> Seq<u8> {
    strip_line_comments(strip_block_comments(s, 0), 0)
}

fn strip_block_pass(s: &[u8]) -> (r: Vec<u8>)
    ensures
        r@ == strip_block_comments(s@, 0),
{
    let mut r: Vec<u8> = Vec::new();
    let mut i: usize = 0;
    proof {
        assert(strip_block_comments(s@, 0) =~= r@ + strip_block_comments(s@, 0));
    }
    while i < s.len()
        invariant
            i <= s@.len(),
            strip_block_comments(s@, 0) == r@ + strip_block_comments(s@, i as int),
        decreases s@.len() - i,
    {
        let ghost pre = r@;
        if i + 1 < s.len() && s[i] == SLASH && s[i + 1] == STAR {
            let j = find_pair_idx(s, i + 2, STAR, SLASH);
            if j == s.len() {
                push_range(&mut r, s, i, s.len());
                proof {
                    assert(r@ =~= pre + s@.subrange(i as int, s@.len() as int));
                    assert(strip_block_comments(s@, 0) =~= r@ + strip_block_comments(s@,
                        s@.len() as int));
                }
                i = s.len();
            } else {
                proof {
                    assert(pre + strip_block_comments(s@, i as int) =~= r@
                        + strip_block_comments(s@, j as int + 2));
                }
                i = j + 2;
            }
        } else {
            r.push(s[i]);
            proof {
                assert(pre + strip_block_comments(s@, i as int) =~= r@ + strip_block_comments(
                    s@, i as int + 1));
            }
            i = i + 1;
        }
    }
    proof {
        assert(r@ =~= strip_block_comments(s@, 0));
    }
    r
}

fn strip_line_pass(s: &[u8]) -> (r: Vec<u8>)
    ensures
        r@ == strip_line_comments(s@, 0),
{
    let mut r: Vec<u8> = Vec::new();
    let mut i: usize = 0;
    proof {
        assert(strip_line_comments(s@, 0) =~= r@ + strip_line_comments(s@, 0));
    }
    while i < s.len()
        invariant
            i <= s@.len(),
            strip_line_comments(s@, 0) == r@ + strip_line_comments(s@, i as int),
        decreases s@.len() - i,
    {
        let ghost pre = r@;
        if i + 1 < s.len() && s[i] == SLASH && s[i + 1] == SLASH {
            let j = find_byte(s, i + 2, NEWLINE);
            if j == s.len() {
                proof {
                    assert(strip_line_comments(s@, i as int) =~= Seq::<u8>::empty());
                    assert(strip_line_comments(s@, 0) =~= r@);
                }
                i = s.len();
            } else {
                proof {
                    assert(pre + strip_line_comments(s@, i as int) =~= r@ + strip_line_comments(
                        s@, j as int));
                }
                i = j;
            }
        } else {
            r.push(s[i]);
            proof {
                assert(pre + strip_line_comments(s@, i as int) =~= r@ + strip_line_comments(s@,
                    i as int + 1));
            }
            i = i + 1;
        }
    }
    proof {
        assert(r@ =~= strip_line_comments(s@, 0));
    }
    r
}

/// Removes comments from a source: `/*`-to-`*/` blocks first (an unclosed
/// block stays verbatim), then `//`-to-end-of-line remainders. Prepared
/// for the pipeline but not wired into it: the engine reads its sources
/// as they come.
pub fn strip_comments(source: &[u8]) -> (r: Vec<u8>)
    ensures
        r@ == spec_strip_comments(source@),
{
    let blocked = strip_block_pass(source);
    strip_line_pass(blocked.as_slice())
}

/// Folds backslash-continued physical lines of a source into numbered
/// logical lines. The number of a folded group is that of its first
/// physical segment; physical lines are numbered from 1. A group still
/// open when the source ends yields no line.
pub fn iter_lines(source: &[u8]) -> (r: Vec<(usize, Vec<u8>)>)
    ensures
        numbered_view(r@) == logical_lines(source@),
{
    let phys = split_physical(source);
    let ghost pl = lines_view(phys@);
    let mut out: Vec<(usize, Vec<u8>)> = Vec::new();
    let mut acc: Vec<u8> = Vec::new();
    let mut start: usize = 0;
    let mut i: usize = 0;
    proof {
        assert(numbered_view(out@) =~= Seq::<(int, Seq<u8>)>::empty());
        assert(acc@ =~= Seq::<u8>::empty());
        assert(fold_lines(pl) =~= numbered_view(out@) + fold_acc(pl, 0, 0, Seq::<u8>::empty()));
    }
    while i < phys.len()
        invariant
            start <= i <= phys@.len(),
            pl == lines_view(phys@),
            fold_lines(pl) == numbered_view(out@) + fold_acc(pl, i as int, start as int, acc@),
        decreases phys@.len() - i,
    {
        let line = &phys[i];
        proof {
            assert(pl[i as int] == line@);
        }
        if line.len() > 0 && line[line.len() - 1] == BACKSLASH {
            push_range(&mut acc, line.as_slice(), 0, line.len() - 1);
            proof {
                assert(strip_backslash(pl[i as int]) =~= line@.subrange(0, line@.len() - 1));
            }
        } else {
            let ghost acc0 = acc@;
            let mut text = acc;
            push_all(&mut text, line.as_slice());
            let ghost old_out = out@;
            out.push((start + 1, text));
            proof {
                assert(numbered_view(out@) =~= numbered_view(old_out).push(
                    (start as int + 1, acc0 + pl[i as int])));
                assert(numbered_view(old_out) + fold_acc(pl, i as int, start as int, acc0)
                    =~= numbered_view(out@) + fold_acc(pl, i as int + 1, i as int + 1,
                        Seq::<u8>::empty()));
            }
            acc = Vec::new();
            start = i + 1;
            proof {
                assert(acc@ =~= Seq::<u8>::empty());
            }
        }
        i = i + 1;
    }
    proof {
        assert(numbered_view(out@) =~= logical_lines(source@));
    }
    out
}

} // verus!
