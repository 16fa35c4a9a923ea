//! The macro table: object-like and function-like macro definitions,
//! keyed by identifier. Duplicate definition overwrites silently; undef
//! of an absent name is a no-op.
//!
//! A definition line is `NAME rest` (object-like, `rest` left-trimmed) or
//! `NAME(p1,...,pn) rest` (function-like, `(` immediately after the name,
//! parameter names trimmed). A `#if` condition is truthy when it does not
//! parse as a signed 64-bit integer, or parses to a non-zero one.

use vstd::prelude::*;
use crate::bytes::{find_from, lemma_find_from_bounds, find_byte, push_all};
use crate::lexer::{
    is_ident_start, is_digit, skip_ws, skip_ws_idx, ident_end, lemma_ident_end_bounds,
    ident_end_idx, digits_end, digits_end_idx, trim, trim_range, ident_start_byte, LPAREN,
    RPAREN, COMMA, EQUALS, SPACE,
};

verus! {

/// A macro definition: a replacement text, and for a function-like macro
/// the ordered parameter names.
#[derive(Debug)]
pub enum MacroValue {
    Constant(Vec<u8>),
    Function(Vec<u8>, Vec<Vec<u8>>),
}

/// The mathematical shape of a definition.
pub enum MacroDef {
    Constant { text: Seq<u8> },
    Function { text: Seq<u8>, params: Seq<Seq<u8>> },
}

impl View for MacroValue {
    type V = MacroDef;

    open spec fn view(&self) -> MacroDef {
        match self {
            MacroValue::Constant(t) => MacroDef::Constant { text: t@ },
            MacroValue::Function(t, ps) => MacroDef::Function {
                text: t@,
                params: ps@.map_values(|p: Vec<u8>| p@),
            },
        }
    }
}

/// Mapping from macro name to definition.
pub struct MacroTable {
    entries: Vec<(Vec<u8>, MacroValue)>,
}

/// The map described by an entry list: later entries win.
pub open spec fn table_map(s: Seq<(Vec<u8>, MacroValue)>) -> Map<Seq<u8>, MacroDef>
    decreases s.len(),
{
    if s.len() == 0 {
        Map::empty()
    } else {
        table_map(s.drop_last()).insert(s.last().0@, s.last().1@)
    }
}

pub open spec fn unique_keys(s: Seq<(Vec<u8>, MacroValue)>) -> bool {
    forall|i: int, j: int| 0 <= i < j < s.len() ==> s[i].0@ != s[j].0@
}

impl View for MacroTable {
    type V = Map<Seq<u8>, MacroDef>;

    closed spec fn view(&self) -> Map<Seq<u8>, MacroDef> {
        table_map(self.entries@)
    }
}

proof fn lemma_table_map_key(s: Seq<(Vec<u8>, MacroValue)>, k: Seq<u8>)
    ensures
        table_map(s).contains_key(k) <==> exists|i: int| 0 <= i < s.len() && s[i].0@ == k,
    decreases s.len(),
{
    if s.len() > 0 {
        lemma_table_map_key(s.drop_last(), k);
        if s.last().0@ == k {
            assert(s[s.len() - 1].0@ == k);
        } else if table_map(s).contains_key(k) {
            let i = choose|i: int| 0 <= i < s.drop_last().len() && s.drop_last()[i].0@ == k;
            assert(s[i].0@ == k);
        } else if exists|i: int| 0 <= i < s.len() && s[i].0@ == k {
            let i = choose|i: int| 0 <= i < s.len() && s[i].0@ == k;
            assert(s.drop_last()[i].0@ == k);
        }
    }
}

proof fn lemma_table_map_get(s: Seq<(Vec<u8>, MacroValue)>, i: int)
    requires
        unique_keys(s),
        0 <= i < s.len(),
    ensures
        table_map(s).contains_key(s[i].0@),
        table_map(s)[s[i].0@] == s[i].1@,
    decreases s.len(),
{
    if i < s.len() - 1 {
        assert(unique_keys(s.drop_last()));
        lemma_table_map_get(s.drop_last(), i);
        assert(s.drop_last()[i] == s[i]);
        assert(s.last().0@ != s[i].0@);
    }
}

proof fn lemma_table_map_remove(s: Seq<(Vec<u8>, MacroValue)>, i: int)
    requires
        unique_keys(s),
        0 <= i < s.len(),
    ensures
        table_map(s.remove(i)) =~= table_map(s).remove(s[i].0@),
    decreases s.len(),
{
    let k = s[i].0@;
    if i == s.len() - 1 {
        assert(s.remove(i) =~= s.drop_last());
        lemma_table_map_key(s.drop_last(), k);
        assert(!table_map(s.drop_last()).contains_key(k));
        assert(table_map(s.drop_last()).insert(k, s.last().1@).remove(k) =~= table_map(
            s.drop_last()));
    } else {
        assert(unique_keys(s.drop_last()));
        lemma_table_map_remove(s.drop_last(), i);
        assert(s.remove(i).drop_last() =~= s.drop_last().remove(i));
        assert(s.remove(i).last() == s.last());
        assert(s.drop_last()[i] == s[i]);
        let kl = s.last().0@;
        assert(kl != k);
        assert(table_map(s.remove(i)) =~= table_map(s.drop_last().remove(i)).insert(kl,
            s.last().1@));
        assert(table_map(s.drop_last()).remove(k).insert(kl, s.last().1@) =~= table_map(
            s.drop_last()).insert(kl, s.last().1@).remove(k));
    }
}

impl MacroTable {
    pub closed spec fn wf(&self) -> bool {
        unique_keys(self.entries@)
    }

    /// An empty table.
    pub fn new() -> (r: MacroTable)
        ensures
            r.wf(),
            r@ == Map::<Seq<u8>, MacroDef>::empty(),
    {
        MacroTable { entries: Vec::new() }
    }

    /// Index of the entry for `name`, when present.
    fn find_entry(&self, name: &[u8]) -> (r: Option<usize>)
        requires
            self.wf(),
        ensures
            match r {
                Some(i) => i < self.entries@.len() && self.entries@[i as int].0@ == name@,
                None => forall|j: int|
                    0 <= j < self.entries@.len() ==> self.entries@[j].0@ != name@,
            },
    {
        let n = self.entries.len();
        let mut i: usize = 0;
        while i < n
            invariant
                i <= n == self.entries@.len(),
                forall|j: int| 0 <= j < i ==> self.entries@[j].0@ != name@,
            decreases n - i,
        {
            let e = &self.entries[i];
            if bytes_eq(e.0.as_slice(), name) {
                return Some(i);
            }
            i = i + 1;
        }
        None
    }

    /// Whether `name` has a definition.
    pub fn is_defined(&self, name: &[u8]) -> (r: bool)
        requires
            self.wf(),
        ensures
            r == self@.contains_key(name@),
    {
        proof {
            lemma_table_map_key(self.entries@, name@);
        }
        match self.find_entry(name) {
            Some(_) => true,
            None => false,
        }
    }

    /// The definition of `name`, when present.
    pub fn get(&self, name: &[u8]) -> (r: Option<&MacroValue>)
        requires
            self.wf(),
        ensures
            match r {
                Some(v) => self@.contains_key(name@) && v@ == self@[name@],
                None => !self@.contains_key(name@),
            },
    {
        proof {
            lemma_table_map_key(self.entries@, name@);
        }
        match self.find_entry(name) {
            Some(i) => {
                proof {
                    lemma_table_map_get(self.entries@, i as int);
                }
                Some(&self.entries[i].1)
            },
            None => None,
        }
    }

    /// Removes the definition of `name`; absent names are a no-op.
    pub fn undef(&mut self, name: &[u8])
        requires
            old(self).wf(),
        ensures
            final(self).wf(),
            final(self)@ == old(self)@.remove(name@),
    {
        let ghost orig = self.entries@;
        proof {
            lemma_table_map_key(orig, name@);
        }
        match self.find_entry(name) {
            Some(i) => {
                proof {
                    lemma_table_map_remove(orig, i as int);
                }
                self.entries.remove(i);
                proof {
                    assert(self.entries@ =~= orig.remove(i as int));
                    assert(unique_keys(self.entries@));
                    assert(table_map(self.entries@) =~= table_map(orig).remove(name@));
                }
            },
            None => {
                proof {
                    assert(table_map(orig) =~= table_map(orig).remove(name@));
                }
            },
        }
    }

    /// Inserts `value` under `name`, overwriting any earlier definition.
    fn insert_entry(&mut self, name: Vec<u8>, value: MacroValue)
        requires
            old(self).wf(),
        ensures
            final(self).wf(),
            final(self)@ == old(self)@.insert(name@, value@),
    {
        let ghost k = name@;
        let ghost vv = value@;
        let ghost orig = table_map(self.entries@);
        self.undef(name.as_slice());
        let ghost mid = self.entries@;
        self.entries.push((name, value));
        proof {
            assert(self.entries@.drop_last() =~= mid);
            assert(self.entries@.last().0@ == k);
            assert(self.entries@.last().1@ == vv);
            lemma_table_map_key(mid, k);
            assert(forall|j: int| 0 <= j < mid.len() ==> mid[j].0@ != k);
            assert(unique_keys(self.entries@));
            assert(table_map(self.entries@) =~= table_map(mid).insert(k, vv));
            assert(table_map(self.entries@) =~= orig.insert(k, vv));
        }
    }
}

/// Parse of an object-like definition body: a name, then the rest of the
/// line left-trimmed.
pub open spec fn spec_parse_constant(line: Seq<u8>) -> Option<(Seq<u8>, Seq<u8>)> {
    let i = skip_ws(line, 0);
    if i >= line.len() || !is_ident_start(line[i]) {
        None
    } else {
        let e = ident_end(line, i);
        let rs = skip_ws(line, e);
        Some((line.subrange(i, e), line.subrange(rs, line.len() as int)))
    }
}

/// The comma-separated, individually trimmed fields of `s[start..limit]`,
/// scanning at `pos`.
pub open spec fn split_params_acc(s: Seq<u8>, pos: int, start: int, limit: int) -> Seq<Seq<u8>>
    decreases limit - pos,
{
    if !(0 <= start <= pos <= limit <= s.len()) {
        Seq::empty()
    } else if pos == limit {
        seq![trim(s.subrange(start, pos))]
    } else if s[pos] == COMMA {
        seq![trim(s.subrange(start, pos))] + split_params_acc(s, pos + 1, pos + 1, limit)
    } else {
        split_params_acc(s, pos + 1, start, limit)
    }
}

/// The parameter names written in `s[from..to]`: none when the range is
/// blank, else the comma-separated fields, each trimmed.
pub open spec fn spec_params(s: Seq<u8>, from: int, to: int) -> Seq<Seq<u8>> {
    if trim(s.subrange(from, to)).len() == 0 {
        Seq::empty()
    } else {
        split_params_acc(s, from, from, to)
    }
}

/// Parse of a function-like definition body: a name immediately followed
/// by `(`, the parameter list up to the first `)`, then the rest of the
/// line left-trimmed.
pub open spec fn spec_parse_function(line: Seq<u8>) -> Option<(Seq<u8>, Seq<Seq<u8>>, Seq<u8>)> {
    let i = skip_ws(line, 0);
    if i >= line.len() || !is_ident_start(line[i]) {
        None
    } else {
        let e = ident_end(line, i);
        if e >= line.len() || line[e] != LPAREN {
            None
        } else {
            let close = find_from(line, e + 1, RPAREN);
            if close >= line.len() {
                None
            } else {
                let rs = skip_ws(line, close + 1);
                Some(
                    (
                        line.subrange(i, e),
                        spec_params(line, e + 1, close),
                        line.subrange(rs, line.len() as int),
                    ),
                )
            }
        }
    }
}

/// Parse of a definition body: function-like when `(` immediately follows
/// the name, otherwise object-like.
pub open spec fn spec_parse_define(line: Seq<u8>) -> Option<(Seq<u8>, MacroDef)> {
    let i = skip_ws(line, 0);
    if i >= line.len() || !is_ident_start(line[i]) {
        None
    } else {
        let e = ident_end(line, i);
        if e < line.len() && line[e] == LPAREN {
            match spec_parse_function(line) {
                Some(p) => Some((p.0, MacroDef::Function { text: p.2, params: p.1 })),
                None => None,
            }
        } else {
            match spec_parse_constant(line) {
                Some(p) => Some((p.0, MacroDef::Constant { text: p.1 })),
                None => None,
            }
        }
    }
}

/// A `NAME` or `NAME=VALUE` seed argument as a definition line: the first
/// `=` becomes a space.
pub open spec fn arg_to_define_line(s: Seq<u8>) -> Seq<u8> {
    let f = find_from(s, 0, EQUALS);
    if f >= s.len() {
        s
    } else {
        s.subrange(0, f) + seq![SPACE] + s.subrange(f + 1, s.len() as int)
    }
}

/// View of a parameter vector.
pub open spec fn param_views(v: Seq<Vec<u8>>) -> Seq<Seq<u8>> {
    v.map_values(|p: Vec<u8>| p@)
}

/// Collects the trimmed comma-separated fields of `line[from..to]`.
fn parse_params(line: &[u8], from: usize, to: usize) -> (r: Vec<Vec<u8>>)
    requires
        from <= to <= line@.len(),
    ensures
        param_views(r@) == spec_params(line@, from as int, to as int),
{
    let blank = trim_range(line, from, to);
    if blank.len() == 0 {
        let r: Vec<Vec<u8>> = Vec::new();
        proof {
            assert(param_views(r@) =~= Seq::<Seq<u8>>::empty());
        }
        return r;
    }
    let mut r: Vec<Vec<u8>> = Vec::new();
    let mut start: usize = from;
    let mut pos: usize = from;
    proof {
        assert(split_params_acc(line@, from as int, from as int, to as int) =~= param_views(r@)
            + split_params_acc(line@, from as int, from as int, to as int));
    }
    while pos < to
        invariant
            from <= start <= pos <= to <= line@.len(),
            split_params_acc(line@, from as int, from as int, to as int) == param_views(r@)
                + split_params_acc(line@, pos as int, start as int, to as int),
        decreases to - pos,
    {
        if line[pos] == COMMA {
            let p = trim_range(line, start, pos);
            let ghost old_r = r@;
            r.push(p);
            proof {
                assert(param_views(r@) =~= param_views(old_r).push(
                    trim(line@.subrange(start as int, pos as int))));
                assert(param_views(old_r) + split_params_acc(line@, pos as int, start as int,
                    to as int) =~= param_views(r@) + split_params_acc(line@, pos as int + 1,
                    pos as int + 1, to as int));
            }
            start = pos + 1;
        }
        pos = pos + 1;
    }
    let p = trim_range(line, start, to);
    let ghost old_r = r@;
    r.push(p);
    proof {
        assert(param_views(r@) =~= param_views(old_r).push(
            trim(line@.subrange(start as int, to as int))));
        assert(param_views(r@) =~= split_params_acc(line@, from as int, from as int, to as int));
    }
    r
}

impl MacroTable {
    /// Defines an object-like macro from a definition body; `false` when
    /// the body has no leading identifier.
    pub fn define_constant(&mut self, line: &[u8]) -> (ok: bool)
        requires
            old(self).wf(),
        ensures
            final(self).wf(),
            match spec_parse_constant(line@) {
                Some(p) => ok && final(self)@ == old(self)@.insert(
                    p.0,
                    MacroDef::Constant { text: p.1 },
                ),
                None => !ok && final(self)@ == old(self)@,
            },
    {
        let i = skip_ws_idx(line, 0);
        if i >= line.len() || !ident_start_byte(line[i]) {
            return false;
        }
        let e = ident_end_idx(line, i);
        let rs = skip_ws_idx(line, e);
        let mut name: Vec<u8> = Vec::new();
        crate::bytes::push_range(&mut name, line, i, e);
        let mut text: Vec<u8> = Vec::new();
        crate::bytes::push_range(&mut text, line, rs, line.len());
        proof {
            assert(name@ =~= line@.subrange(i as int, e as int));
            assert(text@ =~= line@.subrange(rs as int, line@.len() as int));
        }
        self.insert_entry(name, MacroValue::Constant(text));
        true
    }

    /// Defines a function-like macro from a definition body; `false` when
    /// the body does not match `name(params) rest`.
    pub fn define_function(&mut self, line: &[u8]) -> (ok: bool)
        requires
            old(self).wf(),
        ensures
            final(self).wf(),
            match spec_parse_function(line@) {
                Some(p) => ok && final(self)@ == old(self)@.insert(
                    p.0,
                    MacroDef::Function { text: p.2, params: p.1 },
                ),
                None => !ok && final(self)@ == old(self)@,
            },
    {
        let i = skip_ws_idx(line, 0);
        if i >= line.len() || !ident_start_byte(line[i]) {
            return false;
        }
        let e = ident_end_idx(line, i);
        if !(e < line.len() && line[e] == LPAREN) {
            return false;
        }
        let close = find_byte(line, e + 1, RPAREN);
        if close == line.len() {
            return false;
        }
        proof {
            lemma_find_from_bounds(line@, e as int + 1, RPAREN);
        }
        let params = parse_params(line, e + 1, close);
        let rs = skip_ws_idx(line, close + 1);
        let mut name: Vec<u8> = Vec::new();
        crate::bytes::push_range(&mut name, line, i, e);
        let mut text: Vec<u8> = Vec::new();
        crate::bytes::push_range(&mut text, line, rs, line.len());
        proof {
            assert(name@ =~= line@.subrange(i as int, e as int));
            assert(text@ =~= line@.subrange(rs as int, line@.len() as int));
        }
        self.insert_entry(name, MacroValue::Function(text, params));
        true
    }

    /// Defines a macro from a definition body, dispatching on whether `(`
    /// immediately follows the name.
    pub fn define(&mut self, line: &[u8]) -> (ok: bool)
        requires
            old(self).wf(),
        ensures
            final(self).wf(),
            match spec_parse_define(line@) {
                Some(p) => ok && final(self)@ == old(self)@.insert(p.0, p.1),
                None => !ok && final(self)@ == old(self)@,
            },
    {
        let i = skip_ws_idx(line, 0);
        if i >= line.len() || !ident_start_byte(line[i]) {
            return false;
        }
        let e = ident_end_idx(line, i);
        if e < line.len() && line[e] == LPAREN {
            self.define_function(line)
        } else {
            self.define_constant(line)
        }
    }

    /// Defines a macro from a `NAME` or `NAME=VALUE` seed argument.
    pub fn define_from_arg(&mut self, arg: &[u8]) -> (ok: bool)
        requires
            old(self).wf(),
        ensures
            final(self).wf(),
            match spec_parse_define(arg_to_define_line(arg@)) {
                Some(p) => ok && final(self)@ == old(self)@.insert(p.0, p.1),
                None => !ok && final(self)@ == old(self)@,
            },
    {
        let f = find_byte(arg, 0, EQUALS);
        let mut line: Vec<u8> = Vec::new();
        if f == arg.len() {
            push_all(&mut line, arg);
            proof {
                assert(line@ =~= arg_to_define_line(arg@));
            }
        } else {
            crate::bytes::push_range(&mut line, arg, 0, f);
            line.push(SPACE);
            crate::bytes::push_range(&mut line, arg, f + 1, arg.len());
            proof {
                assert(line@ =~= arg_to_define_line(arg@));
            }
        }
        self.define(line.as_slice())
    }

    /// The replacement text of an object-like macro, when `name` names one.
    pub fn expand_constant(&self, name: &[u8]) -> (r: Option<Vec<u8>>)
        requires
            self.wf(),
        ensures
            match r {
                Some(t) => self@.contains_key(name@) && self@[name@] == (MacroDef::Constant {
                    text: t@,
                }),
                None => !self@.contains_key(name@) || !(self@[name@] is Constant),
            },
    {
        match self.get(name) {
            Some(mv) => match mv {
                MacroValue::Constant(t) => {
                    let mut c: Vec<u8> = Vec::new();
                    push_all(&mut c, t.as_slice());
                    proof {
                        assert(c@ =~= t@);
                    }
                    Some(c)
                },
                MacroValue::Function(_, _) => None,
            },
            None => None,
        }
    }

    /// Expands nothing: a line is returned as it came.
    pub fn expand_line(&self, line: &[u8]) -> (r: Vec<u8>)
        ensures
            r@ == line@,
    {
        let mut r: Vec<u8> = Vec::new();
        push_all(&mut r, line);
        proof {
            assert(r@ =~= line@);
        }
        r
    }
}

/// The integer denoted by the digits of `s` from `i` on, accumulating
/// onto `acc`.
pub open spec fn digits_val(s: Seq<u8>, i: int, acc: int) -> int
    decreases s.len() - i,
{
    if i < 0 || i >= s.len() {
        acc
    } else {
        digits_val(s, i + 1, acc * 10 + (s[i] - 48))
    }
}

/// The signed 64-bit integer written in `s`, if any: an optional sign,
/// then digits only, within the `i64` range.
pub open spec fn spec_parse_i64(s: Seq<u8>) -> Option<int> {
    if s.len() == 0 {
        None
    } else {
        let neg = s[0] == 45;
        let d0: int = if s[0] == 45 || s[0] == 43 {
            1
        } else {
            0
        };
        if d0 >= s.len() {
            None
        } else if digits_end(s, d0) != s.len() {
            None
        } else {
            let v = digits_val(s, d0, 0);
            let sv = if neg {
                -v
            } else {
                v
            };
            if -9223372036854775808 <= sv <= 9223372036854775807 {
                Some(sv)
            } else {
                None
            }
        }
    }
}

/// A condition is truthy unless it is an integer equal to zero; text that
/// is no integer counts as true.
pub open spec fn truthy_condition(s: Seq<u8>) -> bool {
    match spec_parse_i64(s) {
        Some(v) => v != 0,
        None => true,
    }
}

proof fn lemma_digits_val_lower(s: Seq<u8>, i: int, acc: int)
    requires
        0 <= i <= s.len(),
        acc >= 0,
        forall|k: int| i <= k < s.len() ==> is_digit(s[k]),
    ensures
        digits_val(s, i, acc) >= acc,
    decreases s.len() - i,
{
    if i < s.len() {
        assert(is_digit(s[i]));
        lemma_digits_val_lower(s, i + 1, acc * 10 + (s[i] - 48));
    }
}

/// Expansion of every identifier of `s` (from `pos` on) that names an
/// object-like macro into its replacement text; a single left-to-right
/// pass without rescanning.
pub open spec fn spec_expand_line2(
    m: Map<Seq<u8>, MacroDef>,
    s: Seq<u8>,
    pos: int,
) -> Seq<u8>
    decreases s.len() - pos,
    via spec_expand_line2_dec
{
    if pos < 0 || pos >= s.len() {
        Seq::empty()
    } else if is_ident_start(s[pos]) {
        let e = ident_end(s, pos);
        let name = s.subrange(pos, e);
        let rep = if m.contains_key(name) && m[name] is Constant {
            m[name]->Constant_text
        } else {
            name
        };
        rep + spec_expand_line2(m, s, e)
    } else {
        seq![s[pos]] + spec_expand_line2(m, s, pos + 1)
    }
}

#[via_fn]
proof fn spec_expand_line2_dec(m: Map<Seq<u8>, MacroDef>, s: Seq<u8>, pos: int) {
    if 0 <= pos < s.len() && is_ident_start(s[pos]) {
        lemma_ident_end_bounds(s, pos);
        assert(ident_end(s, pos) > pos);
    }
}

impl MacroTable {
    /// Evaluates a `#if` condition: an integer is truthy when non-zero;
    /// anything else counts as true.
    pub fn expand_condition(&self, condition: &[u8]) -> (r: bool)
        ensures
            r == truthy_condition(condition@),
    {
        let n = condition.len();
        if n == 0 {
            return true;
        }
        let neg = condition[0] == 45;
        let d0: usize = if condition[0] == 45 || condition[0] == 43 {
            1
        } else {
            0
        };
        if d0 >= n {
            return true;
        }
        let de = digits_end_idx(condition, d0);
        if de != n {
            return true;
        }
        proof {
            crate::lexer::lemma_digits_end_bounds(condition@, d0 as int);
        }
        let mut acc: u64 = 0;
        let mut i: usize = d0;
        while i < n
            invariant
                d0 <= i <= n == condition@.len(),
                n >= 1,
                d0 as int == if condition@[0] == 45 || condition@[0] == 43 { 1int } else { 0 },
                digits_end(condition@, d0 as int) == condition@.len(),
                forall|k: int| d0 <= k < n ==> is_digit(condition@[k]),
                acc <= 9223372036854775808u64,
                digits_val(condition@, d0 as int, 0) == digits_val(condition@, i as int,
                    acc as int),
            decreases n - i,
        {
            proof {
                assert(is_digit(condition@[i as int]));
            }
            let d = condition[i] - 48;
            proof {
                assert(condition@[i as int] - 48 == d as int);
                assert(digits_val(condition@, i as int, acc as int) == digits_val(condition@,
                    i as int + 1, acc as int * 10 + (condition@[i as int] - 48)));
            }
            if acc > 922337203685477580u64 {
                proof {
                    assert(acc as int * 10 + d as int >= 9223372036854775810) by (nonlinear_arith)
                        requires
                            acc as int >= 922337203685477581,
                            d as int >= 0,
                    ;
                    lemma_digits_val_lower(condition@, i as int + 1, acc as int * 10 + d as int);
                    assert(digits_val(condition@, d0 as int, 0) >= 9223372036854775810);
                    assert(spec_parse_i64(condition@) is None);
                }
                return true;
            }
            let acc2: u64 = acc * 10 + (d as u64);
            if acc2 > 9223372036854775808u64 {
                proof {
                    lemma_digits_val_lower(condition@, i as int + 1, acc2 as int);
                    assert(digits_val(condition@, d0 as int, 0) > 9223372036854775808);
                    assert(spec_parse_i64(condition@) is None);
                }
                return true;
            }
            acc = acc2;
            i = i + 1;
        }
        if neg {
            acc != 0
        } else {
            if acc > 9223372036854775807u64 {
                true
            } else {
                acc != 0
            }
        }
    }

    /// One replacement pass over a line: each identifier that names an
    /// object-like macro becomes its replacement text.
    pub fn expand_line2(&self, line: &[u8]) -> (r: Vec<u8>)
        requires
            self.wf(),
        ensures
            r@ == spec_expand_line2(self@, line@, 0),
    {
        let mut r: Vec<u8> = Vec::new();
        let mut pos: usize = 0;
        proof {
            assert(spec_expand_line2(self@, line@, 0) =~= r@ + spec_expand_line2(self@, line@,
                0));
        }
        while pos < line.len()
            invariant
                pos <= line@.len(),
                self.wf(),
                spec_expand_line2(self@, line@, 0) == r@ + spec_expand_line2(self@, line@,
                    pos as int),
            decreases line@.len() - pos,
        {
            let ghost pre = r@;
            if ident_start_byte(line[pos]) {
                let e = ident_end_idx(line, pos);
                proof {
                    lemma_ident_end_bounds(line@, pos as int);
                }
                let mut name: Vec<u8> = Vec::new();
                crate::bytes::push_range(&mut name, line, pos, e);
                proof {
                    assert(name@ =~= line@.subrange(pos as int, e as int));
                }
                match self.get(name.as_slice()) {
                    Some(mv) => match mv {
                        MacroValue::Constant(t) => {
                            push_all(&mut r, t.as_slice());
                        },
                        MacroValue::Function(_, _) => {
                            push_all(&mut r, name.as_slice());
                        },
                    },
                    None => {
                        push_all(&mut r, name.as_slice());
                    },
                }
                proof {
                    assert(pre + spec_expand_line2(self@, line@, pos as int) =~= r@
                        + spec_expand_line2(self@, line@, e as int));
                }
                pos = e;
            } else {
                r.push(line[pos]);
                proof {
                    assert(pre + spec_expand_line2(self@, line@, pos as int) =~= r@
                        + spec_expand_line2(self@, line@, pos as int + 1));
                }
                pos = pos + 1;
            }
        }
        proof {
            assert(r@ =~= spec_expand_line2(self@, line@, 0));
        }
        r
    }
}

/// Byte-wise equality of two slices.
pub fn bytes_eq(a: &[u8], b: &[u8]) -> (r: bool)
    ensures
        r == (a@ == b@),
{
    if a.len() != b.len() {
        proof {
            assert(a@ != b@);
        }
        return false;
    }
    let n = a.len();
    let mut i: usize = 0;
    while i < n
        invariant
            i <= n == a@.len(),
            a@.len() == b@.len(),
            forall|j: int| 0 <= j < i ==> a@[j] == b@[j],
        decreases n - i,
    {
        if a[i] != b[i] {
            return false;
        }
        i = i + 1;
    }
    proof {
        assert(a@ =~= b@);
    }
    true
}

} // verus!
