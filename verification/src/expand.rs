//! The token-level macro expander: a rewriter over a working buffer that
//! substitutes macro references in place and rescans until a fixed point,
//! and handles stringify `#`, paste `##`, `__LINE__`, and adjacent
//! string-literal splicing.
//!
//! The behaviour is given by the recursive specification `run_expand`;
//! each in-place substitution spends one unit of an expansion budget, so
//! a self-referential macro ends in `ExpansionOverflow` rather than
//! rescanning forever.

use vstd::prelude::*;
use crate::bytes::{push_range, push_all, replace_range};
use crate::lexer::{
    next_token, lemma_next_token_bounds, scan_token, rstrip, QUOTE, HASH, LPAREN,
};
use crate::macrotable::{MacroTable, MacroDef, MacroValue, param_views, bytes_eq};
use crate::errors::PreprocessError;

verus! {

/// Substitutions allowed on one line before the expander gives up.
pub const EXPAND_FUEL: u64 = 65536;

pub open spec fn hash_tok() -> Seq<u8> {
    seq![HASH]
}

pub open spec fn hashhash_tok() -> Seq<u8> {
    seq![HASH, HASH]
}

/// The bytes of `__LINE__`.
pub open spec fn line_kw() -> Seq<u8> {
    seq![95u8, 95u8, 76u8, 73u8, 78u8, 69u8, 95u8, 95u8]
}

/// The decimal digits of `n`.
pub open spec fn dec_digits(n: int) -> Seq<u8>
    decreases n,
{
    if n < 0 {
        Seq::empty()
    } else if n < 10 {
        seq![(48 + n) as u8]
    } else {
        dec_digits(n / 10).push((48 + n % 10) as u8)
    }
}

/// The decimal spelling of a line number.
pub fn dec_bytes(n: usize) -> (r: Vec<u8>)
    ensures
        r@ == dec_digits(n as int),
    decreases n,
{
    if n < 10 {
        let mut r: Vec<u8> = Vec::new();
        r.push(48 + (n as u8));
        proof {
            assert(r@ =~= dec_digits(n as int));
        }
        r
    } else {
        let mut r = dec_bytes(n / 10);
        r.push(48 + ((n % 10) as u8));
        r
    }
}

/// `s` without trailing plain spaces (paste trims these from the emitted
/// text before joining).
pub open spec fn rstrip_spaces(s: Seq<u8>) -> Seq<u8>
    decreases s.len(),
{
    if s.len() > 0 && s[s.len() - 1] == 32 {
        rstrip_spaces(s.drop_last())
    } else {
        s
    }
}

/// `s` with its trailing bytes through the last `"` removed; all of `s`
/// when it holds no `"`.
pub open spec fn drop_through_quote(s: Seq<u8>) -> Seq<u8>
    decreases s.len(),
{
    if s.len() == 0 {
        s
    } else if s[s.len() - 1] == QUOTE {
        s.drop_last()
    } else {
        drop_through_quote(s.drop_last())
    }
}

/// Whether `s` ends with a `"` followed only by whitespace: the left part
/// of an adjacent string-literal pair.
pub open spec fn ends_quote_ws(s: Seq<u8>) -> bool {
    rstrip(s).len() > 0 && rstrip(s)[rstrip(s).len() - 1] == QUOTE
}

/// The rightmost parameter position named `name`, if any.
pub open spec fn last_param_index(params: Seq<Seq<u8>>, name: Seq<u8>) -> Option<int>
    decreases params.len(),
{
    if params.len() == 0 {
        None
    } else if params.last() == name {
        Some(params.len() - 1)
    } else {
        last_param_index(params.drop_last(), name)
    }
}

/// Token-wise parameter substitution over a replacement text, from `pos`
/// on: a token equal to a parameter name becomes the matching argument
/// text; everything else is copied with its leading gap. Text after the
/// last token is dropped.
pub open spec fn subst_params(
    text: Seq<u8>,
    params: Seq<Seq<u8>>,
    args: Seq<Seq<u8>>,
    pos: int,
) -> Seq<u8>
    decreases text.len() - pos,
    via subst_params_dec
{
    match next_token(text, pos) {
        None => Seq::empty(),
        Some(t) => {
            let (b, e) = t;
            let tok = text.subrange(b, e);
            match last_param_index(params, tok) {
                Some(i) => text.subrange(pos, b) + (if 0 <= i < args.len() {
                    args[i]
                } else {
                    Seq::empty()
                }) + subst_params(text, params, args, e),
                None => text.subrange(pos, e) + subst_params(text, params, args, e),
            }
        },
    }
}

#[via_fn]
proof fn subst_params_dec(text: Seq<u8>, params: Seq<Seq<u8>>, args: Seq<Seq<u8>>, pos: int) {
    if 0 <= pos <= text.len() {
        lemma_next_token_bounds(text, pos);
    }
}

/// Argument gathering over the text after a function-like macro name:
/// tracks parenthesis depth from `pos`, collecting the argument slices of
/// `s` split by depth-1 commas; `Some((consumed, args))` once depth
/// returns to zero, `None` when the text ends at positive depth.
pub open spec fn gather_args(
    s: Seq<u8>,
    pos: int,
    pdepth: int,
    arg_begin: int,
    arg_end: int,
    args: Seq<Seq<u8>>,
) -> Option<(int, Seq<Seq<u8>>)>
    decreases s.len() - pos,
    via gather_args_dec
{
    match next_token(s, pos) {
        None => if pdepth > 0 {
            None
        } else {
            Some((s.len() as int, args))
        },
        Some(t) => {
            let (b, e) = t;
            let tok = s.subrange(b, e);
            let pd1 = if tok == seq![LPAREN] {
                pdepth + 1
            } else if tok == seq![crate::lexer::RPAREN] {
                pdepth - 1
            } else {
                pdepth
            };
            let ab1 = if tok == seq![LPAREN] && pdepth == 0 {
                e
            } else {
                arg_begin
            };
            if pd1 < 1 {
                let args2 = if arg_end > ab1 {
                    args.push(s.subrange(ab1, arg_end))
                } else {
                    args
                };
                Some((e, args2))
            } else if tok == seq![crate::lexer::COMMA] && pd1 == 1 {
                gather_args(s, e, pd1, e, e, args.push(s.subrange(ab1, arg_end)))
            } else {
                gather_args(s, e, pd1, ab1, e, args)
            }
        },
    }
}

#[via_fn]
proof fn gather_args_dec(
    s: Seq<u8>,
    pos: int,
    pdepth: int,
    arg_begin: int,
    arg_end: int,
    args: Seq<Seq<u8>>,
) {
    if 0 <= pos <= s.len() {
        lemma_next_token_bounds(s, pos);
    }
}

/// What one expander pass over a working buffer comes to.
pub enum ExpandOutcome {
    /// All tokens consumed: `text` is to be emitted, with a newline, and
    /// the buffer cleared.
    Completed { text: Seq<u8> },
    /// An argument list was left open: `text` is to be emitted and `rest`
    /// kept in the buffer for the next fed line to complete.
    Suspended { text: Seq<u8>, rest: Seq<u8> },
    /// A function-like call with the wrong argument count.
    ArityMismatch,
    /// The substitution budget ran out.
    OutOfFuel,
}

/// The expander: walks tokens of `input` from scan position `p`, having
/// already emitted `input[..cursor]` into `buf`. A macro reference or a
/// stringify rewrites `input` in place and rescans from `cursor`,
/// spending one `fuel`; everything else advances.
pub open spec fn run_expand(
    m: Map<Seq<u8>, MacroDef>,
    input: Seq<u8>,
    buf: Seq<u8>,
    cursor: int,
    p: int,
    line: int,
    fuel: nat,
) -> ExpandOutcome
    decreases fuel, input.len() - p,
    via run_expand_dec
{
    match next_token(input, p) {
        None => ExpandOutcome::Completed { text: buf },
        Some(t) => {
            let (b, e) = t;
            let tok = input.subrange(b, e);
            if m.contains_key(tok) {
                match m[tok] {
                    MacroDef::Constant { text } => {
                        if fuel == 0 {
                            ExpandOutcome::OutOfFuel
                        } else {
                            run_expand(
                                m,
                                input.subrange(0, b) + text + input.subrange(
                                    e,
                                    input.len() as int,
                                ),
                                buf,
                                cursor,
                                cursor,
                                line,
                                (fuel - 1) as nat,
                            )
                        }
                    },
                    MacroDef::Function { text, params } => {
                        if e < input.len() && input[e] == LPAREN {
                            match gather_args(
                                input.subrange(e, input.len() as int),
                                0,
                                0,
                                0,
                                0,
                                Seq::empty(),
                            ) {
                                None => ExpandOutcome::Suspended {
                                    text: buf,
                                    rest: input.subrange(cursor, input.len() as int),
                                },
                                Some(g) => {
                                    let (off, args) = g;
                                    if args.len() != params.len() {
                                        ExpandOutcome::ArityMismatch
                                    } else if fuel == 0 {
                                        ExpandOutcome::OutOfFuel
                                    } else {
                                        run_expand(
                                            m,
                                            input.subrange(0, b) + subst_params(
                                                text,
                                                params,
                                                args,
                                                0,
                                            ) + input.subrange(e + off, input.len() as int),
                                            buf,
                                            cursor,
                                            cursor,
                                            line,
                                            (fuel - 1) as nat,
                                        )
                                    }
                                },
                            }
                        } else {
                            run_expand(
                                m,
                                input,
                                buf + input.subrange(cursor, e),
                                e,
                                e,
                                line,
                                fuel,
                            )
                        }
                    },
                }
            } else if tok == hashhash_tok() {
                match next_token(input, e) {
                    Some(t2) => {
                        let (nb, ne) = t2;
                        let ntok = input.subrange(nb, ne);
                        let rep = if m.contains_key(ntok) && m[ntok] is Constant {
                            m[ntok]->Constant_text
                        } else {
                            ntok
                        };
                        run_expand(m, input, rstrip_spaces(buf) + rep, ne, ne, line, fuel)
                    },
                    None => run_expand(
                        m,
                        input,
                        buf + input.subrange(cursor, e),
                        e,
                        e,
                        line,
                        fuel,
                    ),
                }
            } else if tok == hash_tok() {
                match next_token(input, e) {
                    Some(t2) => {
                        let (nb, ne) = t2;
                        let ntok = input.subrange(nb, ne);
                        let rep = if m.contains_key(ntok) && m[ntok] is Constant {
                            m[ntok]->Constant_text
                        } else {
                            ntok
                        };
                        if fuel == 0 {
                            ExpandOutcome::OutOfFuel
                        } else {
                            run_expand(
                                m,
                                input.subrange(0, b) + seq![QUOTE] + rep + seq![QUOTE]
                                    + input.subrange(ne, input.len() as int),
                                buf,
                                cursor,
                                cursor,
                                line,
                                (fuel - 1) as nat,
                            )
                        }
                    },
                    None => run_expand(
                        m,
                        input,
                        buf + input.subrange(cursor, e),
                        e,
                        e,
                        line,
                        fuel,
                    ),
                }
            } else if tok == line_kw() {
                run_expand(
                    m,
                    input,
                    buf + input.subrange(cursor, b) + dec_digits(line),
                    e,
                    e,
                    line,
                    fuel,
                )
            } else if input[b] == QUOTE && ends_quote_ws(buf) {
                run_expand(
                    m,
                    input,
                    drop_through_quote(buf) + input.subrange(b + 1, e),
                    e,
                    e,
                    line,
                    fuel,
                )
            } else {
                run_expand(m, input, buf + input.subrange(cursor, e), e, e, line, fuel)
            }
        },
    }
}

proof fn lemma_tok_eq_single(t: Seq<u8>, c: u8)
    ensures
        (t == seq![c]) <==> (t.len() == 1 && t[0] == c),
{
    if t.len() == 1 && t[0] == c {
        assert(t =~= seq![c]);
    }
}

proof fn lemma_tok_eq_pair(t: Seq<u8>, c: u8, d: u8)
    ensures
        (t == seq![c, d]) <==> (t.len() == 2 && t[0] == c && t[1] == d),
{
    if t.len() == 2 && t[0] == c && t[1] == d {
        assert(t =~= seq![c, d]);
    }
}

/// The rightmost parameter equal to `name`, scanning from the end.
fn find_param(params: &Vec<Vec<u8>>, name: &[u8]) -> (r: Option<usize>)
    ensures
        match r {
            Some(i) => last_param_index(param_views(params@), name@) == Some(i as int) && i
                < params@.len(),
            None => last_param_index(param_views(params@), name@) is None,
        },
{
    let ghost pv = param_views(params@);
    let mut j: usize = params.len();
    proof {
        assert(pv.subrange(0, j as int) =~= pv);
    }
    while j > 0
        invariant
            j <= params@.len(),
            pv == param_views(params@),
            last_param_index(pv, name@) == last_param_index(pv.subrange(0, j as int), name@),
        decreases j,
    {
        if bytes_eq(params[j - 1].as_slice(), name) {
            proof {
                assert(pv.subrange(0, j as int).last() == name@);
                assert(last_param_index(pv.subrange(0, j as int), name@) == Some(j as int - 1));
            }
            return Some(j - 1);
        }
        proof {
            assert(pv.subrange(0, j as int).last() == pv[j as int - 1]);
            assert(pv.subrange(0, j as int).drop_last() =~= pv.subrange(0, j as int - 1));
        }
        j = j - 1;
    }
    proof {
        assert(pv.subrange(0, 0) =~= Seq::<Seq<u8>>::empty());
    }
    None
}

/// Substitutes macro arguments for parameter names, token-wise, over a
/// replacement text.
pub fn expand_function_macro(text: &[u8], params: &Vec<Vec<u8>>, args: &Vec<Vec<u8>>) -> (r: Vec<
    u8,
>)
    requires
        params@.len() == args@.len(),
    ensures
        r@ == subst_params(text@, param_views(params@), param_views(args@), 0),
{
    let ghost pv = param_views(params@);
    let ghost av = param_views(args@);
    let mut ret: Vec<u8> = Vec::new();
    let mut pos: usize = 0;
    proof {
        assert(subst_params(text@, pv, av, 0) =~= ret@ + subst_params(text@, pv, av, 0));
    }
    loop
        invariant
            pos <= text@.len(),
            params@.len() == args@.len(),
            pv == param_views(params@),
            av == param_views(args@),
            subst_params(text@, pv, av, 0) == ret@ + subst_params(text@, pv, av, pos as int),
        decreases text@.len() - pos,
    {
        match scan_token(text, pos) {
            None => {
                proof {
                    assert(ret@ =~= subst_params(text@, pv, av, 0));
                }
                return ret;
            },
            Some((b, e)) => {
                let mut tok: Vec<u8> = Vec::new();
                push_range(&mut tok, text, b, e);
                proof {
                    assert(tok@ =~= text@.subrange(b as int, e as int));
                }
                let ghost pre = ret@;
                match find_param(params, tok.as_slice()) {
                    Some(i) => {
                        push_range(&mut ret, text, pos, b);
                        push_all(&mut ret, args[i].as_slice());
                        proof {
                            assert(av[i as int] == args@[i as int]@);
                            assert(pre + subst_params(text@, pv, av, pos as int) =~= ret@
                                + subst_params(text@, pv, av, e as int));
                        }
                    },
                    None => {
                        push_range(&mut ret, text, pos, e);
                        proof {
                            assert(pre + subst_params(text@, pv, av, pos as int) =~= ret@
                                + subst_params(text@, pv, av, e as int));
                        }
                    },
                }
                pos = e;
            },
        }
    }
}

/// Gathers the arguments of a function-like call from the text after the
/// macro name: `Some((consumed, args))` at the matching `)`, `None` when
/// the text ends inside the list.
pub fn gather_arg_list(s: &[u8]) -> (r: Option<(usize, Vec<Vec<u8>>)>)
    ensures
        match r {
            Some(t) => gather_args(s@, 0, 0, 0, 0, Seq::empty()) == Some(
                (t.0 as int, param_views(t.1@)),
            ) && t.0 <= s@.len(),
            None => gather_args(s@, 0, 0, 0, 0, Seq::empty()) is None,
        },
{
    let mut args: Vec<Vec<u8>> = Vec::new();
    let mut pdepth: i128 = 0;
    let mut ab: usize = 0;
    let mut ae: usize = 0;
    let mut pos: usize = 0;
    proof {
        assert(param_views(args@) =~= Seq::<Seq<u8>>::empty());
    }
    loop
        invariant
            ab <= pos <= s@.len(),
            ae <= pos,
            ab <= ae,
            -(pos as int) <= pdepth as int <= pos as int,
            gather_args(s@, 0, 0, 0, 0, Seq::empty()) == gather_args(s@, pos as int,
                pdepth as int, ab as int, ae as int, param_views(args@)),
        decreases s@.len() - pos,
    {
        match scan_token(s, pos) {
            None => {
                if pdepth > 0 {
                    return None;
                } else {
                    return Some((s.len(), args));
                }
            },
            Some((b, e)) => {
                let ghost tok = s@.subrange(b as int, e as int);
                let one = e - b == 1;
                let is_lp = one && s[b] == LPAREN;
                let is_rp = one && s[b] == crate::lexer::RPAREN;
                let is_comma = one && s[b] == crate::lexer::COMMA;
                proof {
                    lemma_tok_eq_single(tok, LPAREN);
                    lemma_tok_eq_single(tok, crate::lexer::RPAREN);
                    lemma_tok_eq_single(tok, crate::lexer::COMMA);
                    assert(tok.len() == e - b);
                    assert(tok[0] == s@[b as int]);
                }
                let pd1: i128 = if is_lp {
                    pdepth + 1
                } else if is_rp {
                    pdepth - 1
                } else {
                    pdepth
                };
                let ab1: usize = if is_lp && pdepth == 0 {
                    e
                } else {
                    ab
                };
                if pd1 < 1 {
                    if ae > ab1 {
                        let mut a: Vec<u8> = Vec::new();
                        push_range(&mut a, s, ab1, ae);
                        let ghost old_args = args@;
                        args.push(a);
                        proof {
                            assert(param_views(args@) =~= param_views(old_args).push(
                                s@.subrange(ab1 as int, ae as int)));
                        }
                    }
                    return Some((e, args));
                } else if is_comma && pd1 == 1 {
                    let mut a: Vec<u8> = Vec::new();
                    push_range(&mut a, s, ab, ae);
                    let ghost old_args = args@;
                    args.push(a);
                    proof {
                        assert(param_views(args@) =~= param_views(old_args).push(
                            s@.subrange(ab as int, ae as int)));
                    }
                    ab = e;
                    ae = e;
                    pdepth = pd1;
                    pos = e;
                } else {
                    ab = ab1;
                    ae = e;
                    pdepth = pd1;
                    pos = e;
                }
            },
        }
    }
}

/// Removes trailing plain spaces, as paste does before joining.
fn trim_trailing_spaces(buf: &mut Vec<u8>)
    ensures
        final(buf)@ == rstrip_spaces(old(buf)@),
{
    let ghost orig = buf@;
    while buf.len() > 0 && buf[buf.len() - 1] == 32
        invariant
            rstrip_spaces(orig) == rstrip_spaces(buf@),
        decreases buf@.len(),
    {
        let ghost pre = buf@;
        buf.pop();
        proof {
            assert(buf@ =~= pre.drop_last());
        }
    }
}

/// Removes the trailing bytes through the closing `"` of the literal that
/// ends `buf`.
fn strip_through_quote(buf: &mut Vec<u8>)
    ensures
        final(buf)@ == drop_through_quote(old(buf)@),
{
    let ghost orig = buf@;
    while buf.len() > 0 && buf[buf.len() - 1] != QUOTE
        invariant
            drop_through_quote(orig) == drop_through_quote(buf@),
        decreases buf@.len(),
    {
        let ghost pre = buf@;
        buf.pop();
        proof {
            assert(buf@ =~= pre.drop_last());
        }
    }
    if buf.len() > 0 {
        let ghost pre = buf@;
        buf.pop();
        proof {
            assert(buf@ =~= pre.drop_last());
        }
    }
}

/// Whether `buf` ends with a `"` followed only by whitespace.
fn ends_quote_after_ws(buf: &Vec<u8>) -> (r: bool)
    ensures
        r == ends_quote_ws(buf@),
{
    let mut idx: usize = buf.len();
    proof {
        assert(buf@.subrange(0, idx as int) =~= buf@);
    }
    while idx > 0 && crate::lexer::ws_byte(buf[idx - 1])
        invariant
            idx <= buf@.len(),
            rstrip(buf@) == rstrip(buf@.subrange(0, idx as int)),
        decreases idx,
    {
        proof {
            assert(buf@.subrange(0, idx as int).drop_last() =~= buf@.subrange(0,
                idx as int - 1));
        }
        idx = idx - 1;
    }
    proof {
        assert(rstrip(buf@) =~= buf@.subrange(0, idx as int));
    }
    if idx > 0 {
        buf[idx - 1] == QUOTE
    } else {
        false
    }
}

/// Whether `t` spells `__LINE__`.
fn is_line_keyword(t: &[u8]) -> (r: bool)
    ensures
        r == (t@ == line_kw()),
{
    let mut k: Vec<u8> = Vec::new();
    k.push(95);
    k.push(95);
    k.push(76);
    k.push(73);
    k.push(78);
    k.push(69);
    k.push(95);
    k.push(95);
    proof {
        assert(k@ =~= line_kw());
    }
    bytes_eq(t, k.as_slice())
}

#[via_fn]
proof fn run_expand_dec(
    m: Map<Seq<u8>, MacroDef>,
    input: Seq<u8>,
    buf: Seq<u8>,
    cursor: int,
    p: int,
    line: int,
    fuel: nat,
) {
    if 0 <= p <= input.len() {
        lemma_next_token_bounds(input, p);
        match next_token(input, p) {
            Some(t) => {
                lemma_next_token_bounds(input, t.1);
            },
            None => {},
        }
    }
}

/// How one expander pass ended: all tokens consumed, or suspended on an
/// open argument list (the unconsumed text stays in the working buffer).
pub enum ExpandDone {
    Completed(Vec<u8>),
    Suspended(Vec<u8>),
}

/// One expander pass from scan position `p`, mirroring `run_expand`.
fn expand_at(
    m: &MacroTable,
    input: &mut Vec<u8>,
    buf: Vec<u8>,
    cursor: usize,
    p: usize,
    line_number: usize,
    fuel: u64,
) -> (r: Result<ExpandDone, PreprocessError>)
    requires
        m.wf(),
        cursor <= p <= old(input)@.len(),
    ensures
        match run_expand(m@, old(input)@, buf@, cursor as int, p as int, line_number as int,
            fuel as nat) {
            ExpandOutcome::Completed { text } => match r {
                Ok(ExpandDone::Completed(t)) => t@ == text,
                _ => false,
            },
            ExpandOutcome::Suspended { text, rest } => match r {
                Ok(ExpandDone::Suspended(t)) => t@ == text && final(input)@ == rest,
                _ => false,
            },
            ExpandOutcome::ArityMismatch => match r {
                Err(e) => e@ is MacroArityMismatch,
                _ => false,
            },
            ExpandOutcome::OutOfFuel => match r {
                Err(e) => e@ is ExpansionOverflow,
                _ => false,
            },
        },
{
    let ghost target = run_expand(m@, input@, buf@, cursor as int, p as int,
        line_number as int, fuel as nat);
    expand_steps(m, input, buf, cursor, p, line_number, fuel, Ghost(target))
}

/// The expander's scan loop, driven to the outcome fixed before entry.
#[verifier::rlimit(100)]
fn expand_steps(
    m: &MacroTable,
    input: &mut Vec<u8>,
    buf: Vec<u8>,
    cursor: usize,
    p: usize,
    line_number: usize,
    fuel: u64,
    Ghost(target): Ghost<ExpandOutcome>,
) -> (r: Result<ExpandDone, PreprocessError>)
    requires
        m.wf(),
        cursor <= p <= old(input)@.len(),
        target == run_expand(m@, old(input)@, buf@, cursor as int, p as int,
            line_number as int, fuel as nat),
    ensures
        match target {
            ExpandOutcome::Completed { text } => match r {
                Ok(ExpandDone::Completed(t)) => t@ == text,
                _ => false,
            },
            ExpandOutcome::Suspended { text, rest } => match r {
                Ok(ExpandDone::Suspended(t)) => t@ == text && final(input)@ == rest,
                _ => false,
            },
            ExpandOutcome::ArityMismatch => match r {
                Err(e) => e@ is MacroArityMismatch,
                _ => false,
            },
            ExpandOutcome::OutOfFuel => match r {
                Err(e) => e@ is ExpansionOverflow,
                _ => false,
            },
        },
{
    let mut buf = buf;
    let mut cursor = cursor;
    let mut p = p;
    let mut fuel = fuel;
    loop
        invariant
            m.wf(),
            cursor <= p <= input@.len(),
            target == run_expand(m@, input@, buf@, cursor as int, p as int,
                line_number as int, fuel as nat),
        decreases fuel, input@.len() - p,
    {
        let ghost in0 = input@;
        let ghost buf0 = buf@;
        let ghost fuel0 = fuel as nat;
        let ghost cursor0 = cursor as int;
        let ghost p0 = p as int;
        match scan_token(input.as_slice(), p) {
            None => {
                proof {
                    assert(run_expand(m@, in0, buf0, cursor0, p0, line_number as int, fuel0)
                        == (ExpandOutcome::Completed { text: buf0 }));
                }
                return Ok(ExpandDone::Completed(buf));
            },
            Some((b, e)) => {
                let mut tok: Vec<u8> = Vec::new();
                push_range(&mut tok, input.as_slice(), b, e);
                proof {
                    assert(tok@ =~= in0.subrange(b as int, e as int));
                }
                match m.get(tok.as_slice()) {
                    Some(mv) => match mv {
                        MacroValue::Constant(text) => {
                            if fuel == 0 {
                                return Err(PreprocessError::ExpansionOverflow);
                            }
                            replace_range(input, b, e, text.as_slice());
                            proof {
                                assert(input@ == in0.subrange(0, b as int)
                                    + m@[tok@]->Constant_text + in0.subrange(e as int,
                                    in0.len() as int));
                                assert(run_expand(m@, in0, buf0, cursor0, p0,
                                    line_number as int, fuel0) == run_expand(m@, input@, buf0,
                                    cursor0, cursor0, line_number as int, (fuel0 - 1) as nat));
                            }
                            p = cursor;
                            fuel = fuel - 1;
                        },
                        MacroValue::Function(text, params) => {
                            if e < input.len() && input[e] == LPAREN {
                                let mut suffix: Vec<u8> = Vec::new();
                                push_range(&mut suffix, input.as_slice(), e, input.len());
                                proof {
                                    assert(suffix@ =~= in0.subrange(e as int, in0.len() as int));
                                }
                                match gather_arg_list(suffix.as_slice()) {
                                    None => {
                                        let mut rest: Vec<u8> = Vec::new();
                                        push_range(&mut rest, input.as_slice(), cursor,
                                            input.len());
                                        proof {
                                            assert(rest@ =~= in0.subrange(cursor as int,
                                                in0.len() as int));
                                            assert(run_expand(m@, in0, buf0, cursor0, p0,
                                                line_number as int, fuel0)
                                                == (ExpandOutcome::Suspended {
                                                    text: buf0,
                                                    rest: in0.subrange(cursor as int,
                                                        in0.len() as int),
                                                }));
                                        }
                                        *input = rest;
                                        return Ok(ExpandDone::Suspended(buf));
                                    },
                                    Some((off, args)) => {
                                        if args.len() != params.len() {
                                            proof {
                                                assert(run_expand(m@, in0, buf0, cursor0, p0,
                                                    line_number as int, fuel0)
                                                    is ArityMismatch);
                                            }
                                            return Err(PreprocessError::MacroArityMismatch);
                                        }
                                        let expanded = expand_function_macro(text.as_slice(),
                                            params, &args);
                                        if fuel == 0 {
                                            return Err(PreprocessError::ExpansionOverflow);
                                        }
                                        replace_range(input, b, e + off, expanded.as_slice());
                                        proof {
                                            assert(run_expand(m@, in0, buf0, cursor0, p0,
                                                line_number as int, fuel0) == run_expand(m@,
                                                input@, buf0, cursor0, cursor0,
                                                line_number as int, (fuel0 - 1) as nat));
                                        }
                                        p = cursor;
                                        fuel = fuel - 1;
                                    },
                                }
                            } else {
                                push_range(&mut buf, input.as_slice(), cursor, e);
                                proof {
                                    assert(run_expand(m@, in0, buf0, cursor0, p0,
                                        line_number as int, fuel0) == run_expand(m@, in0, buf@,
                                        e as int, e as int, line_number as int, fuel0));
                                }
                                cursor = e;
                                p = e;
                            }
                        },
                    },
                    None => {
                        let t_hh = tok.len() == 2 && tok[0] == HASH && tok[1] == HASH;
                        let t_h = tok.len() == 1 && tok[0] == HASH;
                        proof {
                            lemma_tok_eq_pair(tok@, HASH, HASH);
                            lemma_tok_eq_single(tok@, HASH);
                        }
                        if t_hh {
                            match scan_token(input.as_slice(), e) {
                                Some((nb, ne)) => {
                                    let mut ntok: Vec<u8> = Vec::new();
                                    push_range(&mut ntok, input.as_slice(), nb, ne);
                                    proof {
                                        assert(ntok@ =~= in0.subrange(nb as int, ne as int));
                                    }
                                    let rep: Vec<u8> = match m.expand_constant(
                                        ntok.as_slice(),
                                    ) {
                                        Some(t) => t,
                                        None => ntok,
                                    };
                                    trim_trailing_spaces(&mut buf);
                                    push_all(&mut buf, rep.as_slice());
                                    proof {
                                        assert(run_expand(m@, in0, buf0, cursor0, p0,
                                            line_number as int, fuel0) == run_expand(m@, in0,
                                            buf@, ne as int, ne as int, line_number as int,
                                            fuel0));
                                    }
                                    cursor = ne;
                                    p = ne;
                                },
                                None => {
                                    push_range(&mut buf, input.as_slice(), cursor, e);
                                    proof {
                                        assert(run_expand(m@, in0, buf0, cursor0, p0,
                                            line_number as int, fuel0) == run_expand(m@, in0,
                                            buf@, e as int, e as int, line_number as int,
                                            fuel0));
                                    }
                                    cursor = e;
                                    p = e;
                                },
                            }
                        } else if t_h {
                            match scan_token(input.as_slice(), e) {
                                Some((nb, ne)) => {
                                    let mut ntok: Vec<u8> = Vec::new();
                                    push_range(&mut ntok, input.as_slice(), nb, ne);
                                    proof {
                                        assert(ntok@ =~= in0.subrange(nb as int, ne as int));
                                    }
                                    let rep: Vec<u8> = match m.expand_constant(
                                        ntok.as_slice(),
                                    ) {
                                        Some(t) => t,
                                        None => ntok,
                                    };
                                    if fuel == 0 {
                                        return Err(PreprocessError::ExpansionOverflow);
                                    }
                                    let mut lit: Vec<u8> = Vec::new();
                                    lit.push(QUOTE);
                                    push_all(&mut lit, rep.as_slice());
                                    lit.push(QUOTE);
                                    proof {
                                        assert(lit@ =~= seq![QUOTE] + rep@ + seq![QUOTE]);
                                    }
                                    replace_range(input, b, ne, lit.as_slice());
                                    proof {
                                        assert(input@ == in0.subrange(0, b as int) + (
                                        seq![QUOTE] + rep@ + seq![QUOTE]) + in0.subrange(
                                            ne as int, in0.len() as int));
                                        assert(input@ =~= in0.subrange(0, b as int)
                                            + seq![QUOTE] + rep@ + seq![QUOTE] + in0.subrange(
                                            ne as int, in0.len() as int));
                                        assert(run_expand(m@, in0, buf0, cursor0, p0,
                                            line_number as int, fuel0) == run_expand(m@,
                                            input@, buf0, cursor0, cursor0, line_number as int,
                                            (fuel0 - 1) as nat));
                                    }
                                    p = cursor;
                                    fuel = fuel - 1;
                                },
                                None => {
                                    push_range(&mut buf, input.as_slice(), cursor, e);
                                    proof {
                                        assert(run_expand(m@, in0, buf0, cursor0, p0,
                                            line_number as int, fuel0) == run_expand(m@, in0,
                                            buf@, e as int, e as int, line_number as int,
                                            fuel0));
                                    }
                                    cursor = e;
                                    p = e;
                                },
                            }
                        } else if is_line_keyword(tok.as_slice()) {
                            push_range(&mut buf, input.as_slice(), cursor, b);
                            let d = dec_bytes(line_number);
                            push_all(&mut buf, d.as_slice());
                            proof {
                                assert(run_expand(m@, in0, buf0, cursor0, p0,
                                    line_number as int, fuel0) == run_expand(m@, in0, buf@,
                                    e as int, e as int, line_number as int, fuel0));
                            }
                            cursor = e;
                            p = e;
                        } else {
                            let first_quote = tok[0] == QUOTE;
                            proof {
                                assert(tok@[0] == in0[b as int]);
                            }
                            if first_quote && ends_quote_after_ws(&buf) {
                                strip_through_quote(&mut buf);
                                push_range(&mut buf, input.as_slice(), b + 1, e);
                                proof {
                                    assert(run_expand(m@, in0, buf0, cursor0, p0,
                                        line_number as int, fuel0) == run_expand(m@, in0, buf@,
                                        e as int, e as int, line_number as int, fuel0));
                                }
                                cursor = e;
                                p = e;
                            } else {
                                push_range(&mut buf, input.as_slice(), cursor, e);
                                proof {
                                    assert(run_expand(m@, in0, buf0, cursor0, p0,
                                        line_number as int, fuel0) == run_expand(m@, in0, buf@,
                                        e as int, e as int, line_number as int, fuel0));
                                }
                                cursor = e;
                                p = e;
                            }
                        }
                    },
                }
            },
        }
    }
}


/// Expands the working buffer `input` into `output`: on completion the
/// processed text and a newline are appended and the buffer cleared; on
/// suspension the processed prefix is appended and the unconsumed call
/// text stays in the buffer.
pub fn process_buffer(
    m: &MacroTable,
    input: &mut Vec<u8>,
    output: &mut Vec<u8>,
    line_number: usize,
) -> (r: Result<(), PreprocessError>)
    requires
        m.wf(),
    ensures
        match run_expand(m@, old(input)@, Seq::empty(), 0, 0, line_number as int,
            EXPAND_FUEL as nat) {
            ExpandOutcome::Completed { text } => r is Ok && final(output)@ == old(output)@ + text
                + seq![crate::lineiter::NEWLINE] && final(input)@ == Seq::<u8>::empty(),
            ExpandOutcome::Suspended { text, rest } => r is Ok && final(output)@ == old(output)@
                + text && final(input)@ == rest,
            ExpandOutcome::ArityMismatch => (match r {
                Err(e) => e@ is MacroArityMismatch,
                _ => false,
            }) && final(output)@ == old(output)@,
            ExpandOutcome::OutOfFuel => (match r {
                Err(e) => e@ is ExpansionOverflow,
                _ => false,
            }) && final(output)@ == old(output)@,
        },
{
    let buf: Vec<u8> = Vec::new();
    proof {
        assert(buf@ =~= Seq::<u8>::empty());
    }
    match expand_at(m, input, buf, 0, 0, line_number, EXPAND_FUEL) {
        Ok(ExpandDone::Completed(text)) => {
            push_all(output, text.as_slice());
            output.push(crate::lineiter::NEWLINE);
            input.clear();
            proof {
                assert(input@ =~= Seq::<u8>::empty());
            }
            Ok(())
        },
        Ok(ExpandDone::Suspended(text)) => {
            push_all(output, text.as_slice());
            Ok(())
        },
        Err(e) => Err(e),
    }
}

} // verus!
