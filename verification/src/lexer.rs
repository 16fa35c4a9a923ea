//! The lexical layer: byte classes, whitespace skipping, identifier
//! scanning, trimming, and the token grammar of the expander.
//!
//! A token is one of: an identifier `[A-Za-z_][A-Za-z0-9_]*`, a run of
//! digits, a string literal from `"` to the next `"` (or to the end of the
//! text when unterminated), the two-byte punctuator `##`, or any other
//! single byte. Whitespace separates tokens and belongs to none.

use vstd::prelude::*;
use crate::bytes::find_from;

verus! {

pub const QUOTE: u8 = 34;

pub const HASH: u8 = 35;

pub const LPAREN: u8 = 40;

pub const RPAREN: u8 = 41;

pub const COMMA: u8 = 44;

pub const EQUALS: u8 = 61;

pub const SPACE: u8 = 32;

pub open spec fn is_ws(b: u8) -> bool {
    b == 32 || b == 9 || b == 13 || b == 10
}

pub open spec fn is_ident_start(b: u8) -> bool {
    (65 <= b <= 90) || (97 <= b <= 122) || b == 95
}

pub open spec fn is_digit(b: u8) -> bool {
    48 <= b <= 57
}

pub open spec fn is_ident_char(b: u8) -> bool {
    is_ident_start(b) || is_digit(b)
}

/// Executable twins of the byte classes.
pub fn ws_byte(b: u8) -> (r: bool)
    ensures
        r == is_ws(b),
{
    b == 32 || b == 9 || b == 13 || b == 10
}

pub fn ident_start_byte(b: u8) -> (r: bool)
    ensures
        r == is_ident_start(b),
{
    (65 <= b && b <= 90) || (97 <= b && b <= 122) || b == 95
}

pub fn digit_byte(b: u8) -> (r: bool)
    ensures
        r == is_digit(b),
{
    48 <= b && b <= 57
}

pub fn ident_char_byte(b: u8) -> (r: bool)
    ensures
        r == is_ident_char(b),
{
    ident_start_byte(b) || digit_byte(b)
}

/// First index at or after `from` holding a non-whitespace byte, or the
/// length of `s`.
pub open spec fn skip_ws(s: Seq<u8>, from: int) -> int
    decreases s.len() - from,
{
    if from < 0 || from >= s.len() {
        s.len() as int
    } else if is_ws(s[from]) {
        skip_ws(s, from + 1)
    } else {
        from
    }
}

pub proof fn lemma_skip_ws_bounds(s: Seq<u8>, from: int)
    requires
        0 <= from <= s.len(),
    ensures
        from <= skip_ws(s, from) <= s.len(),
        skip_ws(s, from) < s.len() ==> !is_ws(s[skip_ws(s, from)]),
        forall|k: int| from <= k < skip_ws(s, from) ==> is_ws(s[k]),
    decreases s.len() - from,
{
    if from < s.len() && is_ws(s[from]) {
        lemma_skip_ws_bounds(s, from + 1);
    }
}

/// `skip_ws` lands exactly on the first non-whitespace position.
pub proof fn lemma_skip_ws_at(s: Seq<u8>, from: int, j: int)
    requires
        0 <= from <= j <= s.len(),
        forall|k: int| from <= k < j ==> is_ws(s[k]),
        j < s.len() ==> !is_ws(s[j]),
    ensures
        skip_ws(s, from) == j,
{
    lemma_skip_ws_bounds(s, from);
}

pub fn skip_ws_idx(s: &[u8], from: usize) -> (r: usize)
    requires
        from <= s@.len(),
    ensures
        r == skip_ws(s@, from as int),
        from <= r <= s@.len(),
{
    let mut i: usize = from;
    while i < s.len() && ws_byte(s[i])
        invariant
            from <= i <= s@.len(),
            skip_ws(s@, from as int) == skip_ws(s@, i as int),
        decreases s@.len() - i,
    {
        i = i + 1;
    }
    i
}

/// First index at or after `from` holding a byte that cannot continue an
/// identifier, or the length of `s`.
pub open spec fn ident_end(s: Seq<u8>, from: int) -> int
    decreases s.len() - from,
{
    if from < 0 || from >= s.len() {
        s.len() as int
    } else if is_ident_char(s[from]) {
        ident_end(s, from + 1)
    } else {
        from
    }
}

pub proof fn lemma_ident_end_bounds(s: Seq<u8>, from: int)
    requires
        0 <= from <= s.len(),
    ensures
        from <= ident_end(s, from) <= s.len(),
        ident_end(s, from) < s.len() ==> !is_ident_char(s[ident_end(s, from)]),
        forall|k: int| from <= k < ident_end(s, from) ==> is_ident_char(s[k]),
    decreases s.len() - from,
{
    if from < s.len() && is_ident_char(s[from]) {
        lemma_ident_end_bounds(s, from + 1);
    }
}

pub fn ident_end_idx(s: &[u8], from: usize) -> (r: usize)
    requires
        from <= s@.len(),
    ensures
        r == ident_end(s@, from as int),
        from <= r <= s@.len(),
{
    let mut i: usize = from;
    while i < s.len() && ident_char_byte(s[i])
        invariant
            from <= i <= s@.len(),
            ident_end(s@, from as int) == ident_end(s@, i as int),
        decreases s@.len() - i,
    {
        i = i + 1;
    }
    i
}

/// First index at or after `from` holding a non-digit, or the length of `s`.
pub open spec fn digits_end(s: Seq<u8>, from: int) -> int
    decreases s.len() - from,
{
    if from < 0 || from >= s.len() {
        s.len() as int
    } else if is_digit(s[from]) {
        digits_end(s, from + 1)
    } else {
        from
    }
}

pub proof fn lemma_digits_end_bounds(s: Seq<u8>, from: int)
    requires
        0 <= from <= s.len(),
    ensures
        from <= digits_end(s, from) <= s.len(),
        digits_end(s, from) < s.len() ==> !is_digit(s[digits_end(s, from)]),
        forall|k: int| from <= k < digits_end(s, from) ==> is_digit(s[k]),
    decreases s.len() - from,
{
    if from < s.len() && is_digit(s[from]) {
        lemma_digits_end_bounds(s, from + 1);
    }
}

pub fn digits_end_idx(s: &[u8], from: usize) -> (r: usize)
    requires
        from <= s@.len(),
    ensures
        r == digits_end(s@, from as int),
        from <= r <= s@.len(),
{
    let mut i: usize = from;
    while i < s.len() && digit_byte(s[i])
        invariant
            from <= i <= s@.len(),
            digits_end(s@, from as int) == digits_end(s@, i as int),
        decreases s@.len() - i,
    {
        i = i + 1;
    }
    i
}

pub open spec fn is_lower_alpha(b: u8) -> bool {
    97 <= b <= 122
}

pub fn lower_alpha_byte(b: u8) -> (r: bool)
    ensures
        r == is_lower_alpha(b),
{
    97 <= b && b <= 122
}

/// First index at or after `from` holding a byte outside `a`..`z`, or the
/// length of `s`.
pub open spec fn lower_end(s: Seq<u8>, from: int) -> int
    decreases s.len() - from,
{
    if from < 0 || from >= s.len() {
        s.len() as int
    } else if is_lower_alpha(s[from]) {
        lower_end(s, from + 1)
    } else {
        from
    }
}

pub proof fn lemma_lower_end_bounds(s: Seq<u8>, from: int)
    requires
        0 <= from <= s.len(),
    ensures
        from <= lower_end(s, from) <= s.len(),
    decreases s.len() - from,
{
    if from < s.len() && is_lower_alpha(s[from]) {
        lemma_lower_end_bounds(s, from + 1);
    }
}

pub fn lower_end_idx(s: &[u8], from: usize) -> (r: usize)
    requires
        from <= s@.len(),
    ensures
        r == lower_end(s@, from as int),
        from <= r <= s@.len(),
{
    let mut i: usize = from;
    while i < s.len() && lower_alpha_byte(s[i])
        invariant
            from <= i <= s@.len(),
            lower_end(s@, from as int) == lower_end(s@, i as int),
        decreases s@.len() - i,
    {
        i = i + 1;
    }
    i
}

/// `s` without trailing whitespace.
pub open spec fn rstrip(s: Seq<u8>) -> Seq<u8>
    decreases s.len(),
{
    if s.len() > 0 && is_ws(s[s.len() - 1]) {
        rstrip(s.drop_last())
    } else {
        s
    }
}

/// `s` without leading and trailing whitespace.
pub open spec fn trim(s: Seq<u8>) -> Seq<u8> {
    let t = rstrip(s);
    t.subrange(skip_ws(t, 0), t.len() as int)
}

/// Copies `s[from..to]` trimmed of surrounding whitespace.
pub fn trim_range(s: &[u8], from: usize, to: usize) -> (r: Vec<u8>)
    requires
        from <= to <= s@.len(),
    ensures
        r@ == trim(s@.subrange(from as int, to as int)),
{
    let ghost sub = s@.subrange(from as int, to as int);
    let mut end: usize = to;
    while end > from && ws_byte(s[end - 1])
        invariant
            from <= end <= to <= s@.len(),
            rstrip(sub) == rstrip(s@.subrange(from as int, end as int)),
        decreases end,
    {
        proof {
            assert(s@.subrange(from as int, end as int).drop_last() =~= s@.subrange(
                from as int, end as int - 1));
        }
        end = end - 1;
    }
    let ghost t = rstrip(sub);
    proof {
        assert(s@.subrange(from as int, end as int) =~= t);
    }
    let mut start: usize = from;
    while start < end && ws_byte(s[start])
        invariant
            from <= start <= end <= s@.len(),
            t == s@.subrange(from as int, end as int),
            skip_ws(t, 0) == skip_ws(t, start - from),
        decreases end - start,
    {
        proof {
            assert(t[start - from] == s@[start as int]);
        }
        start = start + 1;
    }
    let mut r: Vec<u8> = Vec::new();
    crate::bytes::push_range(&mut r, s, start, end);
    proof {
        lemma_skip_ws_bounds(t, 0);
        if start < end {
            assert(!is_ws(t[start - from]));
        }
        assert(skip_ws(t, start - from) == start - from);
        assert(r@ =~= t.subrange(skip_ws(t, 0), t.len() as int));
    }
    r
}

/// End of the token that starts at position `i` (a non-whitespace byte).
pub open spec fn token_end(s: Seq<u8>, i: int) -> int {
    if i < 0 || i >= s.len() {
        i
    } else if is_ident_start(s[i]) {
        ident_end(s, i + 1)
    } else if is_digit(s[i]) {
        digits_end(s, i + 1)
    } else if s[i] == QUOTE {
        if find_from(s, i + 1, QUOTE) == s.len() {
            s.len() as int
        } else {
            find_from(s, i + 1, QUOTE) + 1
        }
    } else if s[i] == HASH && i + 1 < s.len() && s[i + 1] == HASH {
        i + 2
    } else {
        i + 1
    }
}

/// The next token of `s` at or after byte offset `from`: `Some((begin,
/// end))`, or `None` when only whitespace remains.
pub open spec fn next_token(s: Seq<u8>, from: int) -> Option<(int, int)> {
    let i = skip_ws(s, from);
    if i >= s.len() {
        None
    } else {
        Some((i, token_end(s, i)))
    }
}

pub proof fn lemma_token_end_bounds(s: Seq<u8>, i: int)
    requires
        0 <= i < s.len(),
    ensures
        i < token_end(s, i) <= s.len(),
{
    lemma_ident_end_bounds(s, i + 1);
    lemma_digits_end_bounds(s, i + 1);
    if s[i] == QUOTE {
        crate::bytes::lemma_find_from_bounds(s, i + 1, QUOTE);
    }
}

pub proof fn lemma_next_token_bounds(s: Seq<u8>, from: int)
    requires
        0 <= from <= s.len(),
    ensures
        next_token(s, from) is Some ==> {
            let (b, e) = next_token(s, from)->Some_0;
            from <= b < e <= s.len() && !is_ws(s[b])
        },
{
    lemma_skip_ws_bounds(s, from);
    if next_token(s, from) is Some {
        lemma_token_end_bounds(s, skip_ws(s, from));
    }
}

/// Executable twin of `next_token`.
pub fn scan_token(s: &[u8], from: usize) -> (r: Option<(usize, usize)>)
    requires
        from <= s@.len(),
    ensures
        match r {
            Some(t) => {
                &&& next_token(s@, from as int) == Some((t.0 as int, t.1 as int))
                &&& from <= t.0 < t.1 <= s@.len()
            },
            None => next_token(s@, from as int) is None,
        },
{
    let i = skip_ws_idx(s, from);
    if i >= s.len() {
        return None;
    }
    proof {
        lemma_token_end_bounds(s@, i as int);
    }
    let b = s[i];
    if ident_start_byte(b) {
        Some((i, ident_end_idx(s, i + 1)))
    } else if digit_byte(b) {
        Some((i, digits_end_idx(s, i + 1)))
    } else if b == QUOTE {
        let q = crate::bytes::find_byte(s, i + 1, QUOTE);
        if q == s.len() {
            Some((i, s.len()))
        } else {
            Some((i, q + 1))
        }
    } else if b == HASH && i + 1 < s.len() && s[i + 1] == HASH {
        Some((i, i + 2))
    } else {
        Some((i, i + 1))
    }
}

} // verus!
