//! Properties of the library stated and proved as theorems: the line
//! reader's behaviour with and without continuations, the symmetry of
//! define and undef, the conditional stack's depth discipline, the
//! neutrality of inactive branches, and the splicing of adjacent string
//! literals.

use vstd::prelude::*;
use crate::lineiter::{ends_backslash, strip_backslash, fold_acc, split_lines, logical_lines};
use crate::lexer::{is_ws, rstrip, next_token, token_end, lemma_skip_ws_at, QUOTE};
use crate::bytes::lemma_find_from_at;
use crate::expand::{
    run_expand, ExpandOutcome, drop_through_quote, ends_quote_ws, hash_tok, hashhash_tok,
    line_kw,
};
use crate::macrotable::MacroDef;
use crate::errors::ErrKind;
use crate::preprocessor::{
    EngineView, DirectiveKind, top_active, is_directive_line, parse_directive,
    spec_directive_kind, spec_run_directive, spec_engine_line, spec_engine_lines, spec_feed,
};

verus! {

/// The reader on a source without continuations: every physical line
/// comes back as its own logical line, in order, numbered from 1.
pub proof fn lemma_fold_without_continuations(ls: Seq<Seq<u8>>, i: int)
    requires
        0 <= i <= ls.len(),
        forall|k: int| i <= k < ls.len() ==> !ends_backslash(ls[k]),
    ensures
        fold_acc(ls, i, i, Seq::empty()).len() == ls.len() - i,
        forall|k: int|
            i <= k < ls.len() ==> fold_acc(ls, i, i, Seq::empty())[k - i] == (k + 1, ls[k]),
    decreases ls.len() - i,
{
    if i < ls.len() {
        lemma_fold_without_continuations(ls, i + 1);
        assert(Seq::<u8>::empty() + ls[i] =~= ls[i]);
        let rest = fold_acc(ls, i + 1, i + 1, Seq::empty());
        let whole = fold_acc(ls, i, i, Seq::empty());
        assert(whole == seq![(i + 1, ls[i])] + rest);
        assert forall|k: int| i <= k < ls.len() implies whole[k - i] == (k + 1, ls[k]) by {
            if k > i {
                assert(whole[k - i] == rest[k - (i + 1)]);
            }
        }
    }
}

/// Line-folding round trip: a source none of whose physical lines ends
/// in a backslash reads back as exactly those lines, numbered `1..=N`.
/// (A trailing backslash on the final physical line opens a group that
/// the end of the source closes unserved, so such sources are excluded.)
pub proof fn lemma_line_folding_round_trip(s: Seq<u8>)
    requires
        forall|k: int| 0 <= k < split_lines(s).len() ==> !ends_backslash(split_lines(s)[k]),
    ensures
        logical_lines(s).len() == split_lines(s).len(),
        forall|k: int|
            0 <= k < split_lines(s).len() ==> logical_lines(s)[k] == (k + 1, split_lines(s)[k]),
{
    lemma_fold_without_continuations(split_lines(s), 0);
}

/// The text of one folded group: `k` continued segments without their
/// trailing backslashes, then the closing line.
pub open spec fn group_text(ls: Seq<Seq<u8>>, i: int, k: int) -> Seq<u8>
    decreases k,
{
    if k <= 0 {
        ls[i]
    } else {
        strip_backslash(ls[i]) + group_text(ls, i + 1, k - 1)
    }
}

proof fn lemma_fold_group_acc(ls: Seq<Seq<u8>>, i: int, start: int, acc: Seq<u8>, k: int)
    requires
        0 <= start <= i,
        0 <= k,
        i + k < ls.len(),
        forall|j: int| i <= j < i + k ==> ends_backslash(ls[j]),
        !ends_backslash(ls[i + k]),
    ensures
        fold_acc(ls, i, start, acc) == seq![(start + 1, acc + group_text(ls, i, k))] + fold_acc(
            ls,
            i + k + 1,
            i + k + 1,
            Seq::empty(),
        ),
    decreases k,
{
    if k == 0 {
    } else {
        assert(ends_backslash(ls[i]));
        lemma_fold_group_acc(ls, i + 1, start, acc + strip_backslash(ls[i]), k - 1);
        assert(acc + strip_backslash(ls[i]) + group_text(ls, i + 1, k - 1) =~= acc + (
        strip_backslash(ls[i]) + group_text(ls, i + 1, k - 1)));
    }
}

/// Folding correctness: from a group boundary, a maximal run of `k`
/// backslash-terminated lines followed by a plain line is read as exactly
/// one logical line — the `k+1` segments joined, numbered with the first
/// segment's line number — and reading continues after the run.
pub proof fn lemma_folding_correctness(ls: Seq<Seq<u8>>, i: int, k: int)
    requires
        0 <= i,
        0 <= k,
        i + k < ls.len(),
        forall|j: int| i <= j < i + k ==> ends_backslash(ls[j]),
        !ends_backslash(ls[i + k]),
    ensures
        fold_acc(ls, i, i, Seq::empty()) == seq![(i + 1, group_text(ls, i, k))] + fold_acc(
            ls,
            i + k + 1,
            i + k + 1,
            Seq::empty(),
        ),
{
    lemma_fold_group_acc(ls, i, i, Seq::empty(), k);
    assert(Seq::<u8>::empty() + group_text(ls, i, k) =~= group_text(ls, i, k));
}

/// Define/undef symmetry: after defining a name, undefining it leaves the
/// name undefined; a later define of the same name wins over an earlier
/// one; and undefining erases a fresh define entirely.
pub proof fn lemma_define_undef_symmetry(
    m: Map<Seq<u8>, MacroDef>,
    name: Seq<u8>,
    v: MacroDef,
    w: MacroDef,
)
    ensures
        !m.insert(name, v).remove(name).contains_key(name),
        m.insert(name, v).insert(name, w) =~= m.insert(name, w),
        m.insert(name, v).remove(name) =~= m.remove(name),
{
}

/// The net conditional-depth change a directive line makes when it
/// succeeds: `#if`/`#ifdef`/`#ifndef` push one frame, `#endif` pops one,
/// `#elif` and `#else` keep the depth, and every other directive leaves
/// the stack untouched.
pub proof fn lemma_conditional_depth(st: EngineView, line: Seq<u8>)
    requires
        parse_directive(line) is Some,
        spec_run_directive(st, line).err is None,
    ensures
        ({
            let d = spec_run_directive(st, line);
            let k = spec_directive_kind(parse_directive(line)->Some_0.0);
            &&& ((k == DirectiveKind::Ifdef || k == DirectiveKind::Ifndef || k
                == DirectiveKind::If) ==> d.st.stack.len() == st.stack.len() + 1)
            &&& (k == DirectiveKind::Endif ==> d.st.stack.len() == st.stack.len() - 1)
            &&& ((k == DirectiveKind::Elif || k == DirectiveKind::Else) ==> d.st.stack.len()
                == st.stack.len())
            &&& ((k == DirectiveKind::Inclusion || k == DirectiveKind::Define || k
                == DirectiveKind::Undef || k == DirectiveKind::Error || k
                == DirectiveKind::Warning || k == DirectiveKind::Unknown) ==> d.st.stack
                == st.stack)
        }),
{
}

/// The net conditional-depth change of a sequence of lines, counting
/// only the directives that move the stack.
pub open spec fn net_depth(lines: Seq<(int, Seq<u8>)>, i: int) -> int
    decreases lines.len() - i,
{
    if i < 0 || i >= lines.len() {
        0
    } else {
        let text = lines[i].1;
        let delta: int = if is_directive_line(text) {
            match parse_directive(text) {
                Some(p) => {
                    let k = spec_directive_kind(p.0);
                    if k == DirectiveKind::Ifdef || k == DirectiveKind::Ifndef || k
                        == DirectiveKind::If {
                        1
                    } else if k == DirectiveKind::Endif {
                        -1
                    } else {
                        0
                    }
                },
                None => 0,
            }
        } else {
            0
        };
        delta + net_depth(lines, i + 1)
    }
}

/// No line of the sequence asks for a header.
pub open spec fn no_inclusions(lines: Seq<(int, Seq<u8>)>) -> bool {
    forall|j: int|
        0 <= j < lines.len() && is_directive_line(#[trigger] lines[j].1) ==> (match parse_directive(
            lines[j].1,
        ) {
            Some(p) => spec_directive_kind(p.0) != DirectiveKind::Inclusion,
            None => true,
        })
}

/// Feeding text to the expander never moves the conditional stack.
pub proof fn lemma_feed_keeps_stack(st: EngineView, text: Seq<u8>, ln: int)
    requires
        spec_feed(st, text, ln) is Ok,
    ensures
        spec_feed(st, text, ln)->Ok_0.stack == st.stack,
{
}

/// Conditional balance: over lines without inclusions, a successful run
/// moves the stack depth by exactly the lines' net conditional depth. In
/// particular a balanced nesting (net depth zero) processed from an empty
/// stack leaves the stack empty.
pub proof fn lemma_conditional_balance(
    st: EngineView,
    lines: Seq<(int, Seq<u8>)>,
    i: int,
    depth: nat,
)
    requires
        0 <= i <= lines.len(),
        no_inclusions(lines),
        spec_engine_lines(st, lines, i, depth) is Ok,
    ensures
        spec_engine_lines(st, lines, i, depth)->Ok_0.stack.len() == st.stack.len() + net_depth(
            lines,
            i,
        ),
    decreases lines.len() - i,
{
    if i < lines.len() {
        let ln = lines[i].0;
        let text = lines[i].1;
        let step = spec_engine_line(st, ln, text, depth);
        assert(step is Ok);
        let st1 = step->Ok_0;
        if is_directive_line(text) {
            let d = spec_run_directive(st, text);
            assert(d.err is None);
            assert(d.inclusion is None);
            assert(st1 == d.st);
            lemma_conditional_depth(st, text);
        } else if top_active(st.stack) {
            lemma_feed_keeps_stack(st, text, ln);
        }
        lemma_conditional_balance(st1, lines, i + 1, depth);
    }
}

/// Dead-branch neutrality: under an inactive conditional frame a line
/// adds nothing to the output, never mutates the macro table, and leaves
/// the working buffer and the diagnostics as they were; only the
/// conditional stack itself may move.
pub proof fn lemma_dead_branch_neutrality(st: EngineView, ln: int, text: Seq<u8>, depth: nat)
    requires
        !top_active(st.stack),
        spec_engine_line(st, ln, text, depth) is Ok,
    ensures
        ({
            let st1 = spec_engine_line(st, ln, text, depth)->Ok_0;
            &&& st1.output == st.output
            &&& st1.macros == st.macros
            &&& st1.input == st.input
            &&& st1.warnings == st.warnings
        }),
{
}

/// Adjacent string splicing: a line holding exactly two string literals,
/// separated only by whitespace and naming no macro, expands to the one
/// merged literal — the inner quotes and the gap vanish, and the output
/// holds the two contents contiguously.
#[verifier::rlimit(60)]
pub proof fn lemma_adjacent_string_splicing(
    m: Map<Seq<u8>, MacroDef>,
    a: Seq<u8>,
    gap: Seq<u8>,
    b: Seq<u8>,
    line: int,
    fuel: nat,
)
    requires
        forall|k: int| 0 <= k < a.len() ==> a[k] != QUOTE,
        forall|k: int| 0 <= k < b.len() ==> b[k] != QUOTE,
        forall|k: int| 0 <= k < gap.len() ==> is_ws(#[trigger] gap[k]),
        !m.contains_key(seq![QUOTE] + a + seq![QUOTE]),
        !m.contains_key(seq![QUOTE] + b + seq![QUOTE]),
    ensures
        run_expand(
            m,
            seq![QUOTE] + a + seq![QUOTE] + gap + seq![QUOTE] + b + seq![QUOTE],
            Seq::empty(),
            0,
            0,
            line,
            fuel,
        ) == (ExpandOutcome::Completed { text: seq![QUOTE] + a + b + seq![QUOTE] }),
{
    let input = seq![QUOTE] + a + seq![QUOTE] + gap + seq![QUOTE] + b + seq![QUOTE];
    let la = a.len() as int;
    let lg = gap.len() as int;
    let lb = b.len() as int;
    let len = input.len() as int;
    assert(len == la + lg + lb + 4);
    assert(input[0] == QUOTE);
    assert(forall|k: int| 1 <= k < 1 + la ==> input[k] == a[k - 1]);
    assert(input[1 + la] == QUOTE);
    assert(forall|k: int| la + 2 <= k < la + 2 + lg ==> input[k] == gap[k - la - 2]);
    assert(input[la + lg + 2] == QUOTE);
    assert(forall|k: int| la + lg + 3 <= k < la + lg + 3 + lb ==> input[k] == b[k - la - lg - 3]);
    assert(input[la + lg + lb + 3] == QUOTE);
    assert(!is_ws(QUOTE));
    // first literal: one token from 0 to la + 2
    lemma_skip_ws_at(input, 0, 0);
    lemma_find_from_at(input, 1, 1 + la, QUOTE);
    assert(token_end(input, 0) == la + 2);
    assert(next_token(input, 0) == Some((0int, la + 2)));
    let tok1 = input.subrange(0, la + 2);
    assert(tok1 =~= seq![QUOTE] + a + seq![QUOTE]);
    assert(!m.contains_key(tok1));
    assert(tok1 != hashhash_tok());
    assert(tok1 != hash_tok());
    assert(tok1[0] != 95);
    assert(tok1 != line_kw());
    assert(!ends_quote_ws(Seq::<u8>::empty()));
    let buf1 = Seq::<u8>::empty() + input.subrange(0, la + 2);
    assert(run_expand(m, input, Seq::empty(), 0, 0, line, fuel) == run_expand(
        m,
        input,
        buf1,
        la + 2,
        la + 2,
        line,
        fuel,
    ));
    // second literal: one token from la + lg + 2 to the end
    lemma_skip_ws_at(input, la + 2, la + lg + 2);
    lemma_find_from_at(input, la + lg + 3, la + lg + lb + 3, QUOTE);
    assert(token_end(input, la + lg + 2) == len);
    assert(next_token(input, la + 2) == Some((la + lg + 2, len)));
    let tok2 = input.subrange(la + lg + 2, len);
    assert(tok2 =~= seq![QUOTE] + b + seq![QUOTE]);
    assert(!m.contains_key(tok2));
    assert(tok2 != hashhash_tok());
    assert(tok2 != hash_tok());
    assert(tok2[0] != 95);
    assert(tok2 != line_kw());
    // the emitted first literal ends in a quote, so the splice fires
    assert(buf1 =~= tok1);
    assert(buf1.len() > 0 && buf1[buf1.len() - 1] == QUOTE);
    assert(rstrip(buf1) == buf1);
    assert(ends_quote_ws(buf1));
    let buf2 = drop_through_quote(buf1) + input.subrange(la + lg + 3, len);
    assert(drop_through_quote(buf1) =~= seq![QUOTE] + a);
    assert(input.subrange(la + lg + 3, len) =~= b + seq![QUOTE]);
    assert(run_expand(m, input, buf1, la + 2, la + 2, line, fuel) == run_expand(
        m,
        input,
        buf2,
        len,
        len,
        line,
        fuel,
    ));
    // no tokens remain: the pass completes with the merged literal
    lemma_skip_ws_at(input, len, len);
    assert(next_token(input, len) is None);
    assert(run_expand(m, input, buf2, len, len, line, fuel) == (ExpandOutcome::Completed {
        text: buf2,
    }));
    assert(buf2 =~= seq![QUOTE] + a + b + seq![QUOTE]);
}

} // verus!
