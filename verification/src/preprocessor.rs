//! The preprocessing engine: reads logical lines, executes directives,
//! tracks the conditional-compilation stack, feeds active text to the
//! expander, and resolves header inclusion against a caller-supplied set of
//! header files.

use vstd::prelude::*;
use crate::bytes::{push_all, find_from};
use crate::lexer::{
    skip_ws, skip_ws_idx, lower_end, lower_end_idx, trim, trim_range, HASH, QUOTE,
};
use crate::lineiter::{iter_lines, logical_lines, numbered_view, NEWLINE};
use crate::macrotable::{
    MacroTable, MacroDef, param_views, bytes_eq, spec_parse_define, truthy_condition,
};
use crate::expand::{run_expand, ExpandOutcome, process_buffer, gather_arg_list, EXPAND_FUEL};
use crate::errors::{PreprocessError, ErrKind};

verus! {

/// How many nested header inclusions a run may open.
pub const NESTING_DEPTH: u64 = 64;

pub const SLASH: u8 = 47;

pub const LANGLE: u8 = 60;

pub const RANGLE: u8 = 62;

/// One conditional frame: no branch of the group taken yet, the current
/// branch live, or a branch already consumed.
#[derive(Clone, Copy, PartialEq, Eq, Structural, Debug)]
pub enum CondState {
    NotYetFound,
    WithinTrueBlock,
    AlreadyFound,
}

/// The mathematical state of an engine.
#[verifier::ext_equal]
pub struct EngineView {
    pub input: Seq<u8>,
    pub output: Seq<u8>,
    pub macros: Map<Seq<u8>, MacroDef>,
    pub stack: Seq<CondState>,
    pub search_dirs: Seq<Seq<u8>>,
    pub files: Seq<(Seq<u8>, Seq<u8>)>,
    pub warnings: Seq<Seq<u8>>,
}

/// View of the header-file table.
pub open spec fn files_view(v: Seq<(Vec<u8>, Vec<u8>)>) -> Seq<(Seq<u8>, Seq<u8>)> {
    v.map_values(|p: (Vec<u8>, Vec<u8>)| (p.0@, p.1@))
}

/// The top frame decides activity; an empty stack is live.
pub open spec fn top_active(stack: Seq<CondState>) -> bool {
    stack.len() == 0 || stack.last() == CondState::WithinTrueBlock
}

/// A directive line: the first non-blank byte is `#`.
pub open spec fn is_directive_line(line: Seq<u8>) -> bool {
    skip_ws(line, 0) < line.len() && line[skip_ws(line, 0)] == HASH
}

/// Parse of a directive line into its lowercase name and its trimmed rest.
pub open spec fn parse_directive(line: Seq<u8>) -> Option<(Seq<u8>, Seq<u8>)> {
    let i = skip_ws(line, 0);
    if !(i < line.len() && line[i] == HASH) {
        None
    } else {
        let ns = skip_ws(line, i + 1);
        let ne = lower_end(line, ns);
        if ne == ns {
            None
        } else {
            let rs = skip_ws(line, ne);
            Some((line.subrange(ns, ne), trim(line.subrange(rs, line.len() as int))))
        }
    }
}

pub open spec fn kw_inclusion() -> Seq<u8> {
    seq![105u8, 110u8, 99u8, 108u8, 117u8, 100u8, 101u8]
}

pub open spec fn kw_define() -> Seq<u8> {
    seq![100u8, 101u8, 102u8, 105u8, 110u8, 101u8]
}

pub open spec fn kw_undef() -> Seq<u8> {
    seq![117u8, 110u8, 100u8, 101u8, 102u8]
}

pub open spec fn kw_error() -> Seq<u8> {
    seq![101u8, 114u8, 114u8, 111u8, 114u8]
}

pub open spec fn kw_warning() -> Seq<u8> {
    seq![119u8, 97u8, 114u8, 110u8, 105u8, 110u8, 103u8]
}

pub open spec fn kw_ifdef() -> Seq<u8> {
    seq![105u8, 102u8, 100u8, 101u8, 102u8]
}

pub open spec fn kw_ifndef() -> Seq<u8> {
    seq![105u8, 102u8, 110u8, 100u8, 101u8, 102u8]
}

pub open spec fn kw_if() -> Seq<u8> {
    seq![105u8, 102u8]
}

pub open spec fn kw_elif() -> Seq<u8> {
    seq![101u8, 108u8, 105u8, 102u8]
}

pub open spec fn kw_else() -> Seq<u8> {
    seq![101u8, 108u8, 115u8, 101u8]
}

pub open spec fn kw_endif() -> Seq<u8> {
    seq![101u8, 110u8, 100u8, 105u8, 102u8]
}

/// The directives the executor knows.
#[derive(Clone, Copy, PartialEq, Eq, Structural, Debug)]
pub enum DirectiveKind {
    Inclusion,
    Define,
    Undef,
    Error,
    Warning,
    Ifdef,
    Ifndef,
    If,
    Elif,
    Else,
    Endif,
    Unknown,
}

pub open spec fn spec_directive_kind(name: Seq<u8>) -> DirectiveKind {
    if name == kw_inclusion() {
        DirectiveKind::Inclusion
    } else if name == kw_define() {
        DirectiveKind::Define
    } else if name == kw_undef() {
        DirectiveKind::Undef
    } else if name == kw_error() {
        DirectiveKind::Error
    } else if name == kw_warning() {
        DirectiveKind::Warning
    } else if name == kw_ifdef() {
        DirectiveKind::Ifdef
    } else if name == kw_ifndef() {
        DirectiveKind::Ifndef
    } else if name == kw_if() {
        DirectiveKind::If
    } else if name == kw_elif() {
        DirectiveKind::Elif
    } else if name == kw_else() {
        DirectiveKind::Else
    } else if name == kw_endif() {
        DirectiveKind::Endif
    } else {
        DirectiveKind::Unknown
    }
}

/// The header name of an inclusion rest: `"name"` or `<name>`, nonempty.
pub open spec fn parse_header_name(rest: Seq<u8>) -> Option<Seq<u8>> {
    if rest.len() >= 2 && rest[0] == QUOTE {
        let c = find_from(rest, 1, QUOTE);
        if 1 < c < rest.len() {
            Some(rest.subrange(1, c))
        } else {
            None
        }
    } else if rest.len() >= 2 && rest[0] == LANGLE {
        let c = find_from(rest, 1, RANGLE);
        if 1 < c < rest.len() {
            Some(rest.subrange(1, c))
        } else {
            None
        }
    } else {
        None
    }
}

/// What one directive line does to an engine state: the new state, an
/// inclusion request when the directive asks for one, or a fatal error
/// (the state is then unchanged).
pub struct DirectiveOut {
    pub st: EngineView,
    pub inclusion: Option<Seq<u8>>,
    pub err: Option<ErrKind>,
}

/// The directive table. With an inactive top frame only the branch
/// directives act; everything else is skipped.
pub open spec fn spec_run_directive(st: EngineView, line: Seq<u8>) -> DirectiveOut {
    match parse_directive(line) {
        None => DirectiveOut { st, inclusion: None, err: Some(ErrKind::MalformedDirective) },
        Some(p) => {
            let (name, rest) = p;
            let active = top_active(st.stack);
            match spec_directive_kind(name) {
                DirectiveKind::Inclusion => if active {
                    match parse_header_name(rest) {
                        Some(h) => DirectiveOut { st, inclusion: Some(h), err: None },
                        None => DirectiveOut {
                            st,
                            inclusion: None,
                            err: Some(ErrKind::MalformedDirective),
                        },
                    }
                } else {
                    DirectiveOut { st, inclusion: None, err: None }
                },
                DirectiveKind::Define => if active {
                    match spec_parse_define(rest) {
                        Some(d) => DirectiveOut {
                            st: EngineView { macros: st.macros.insert(d.0, d.1), ..st },
                            inclusion: None,
                            err: None,
                        },
                        None => DirectiveOut {
                            st,
                            inclusion: None,
                            err: Some(ErrKind::MalformedDirective),
                        },
                    }
                } else {
                    DirectiveOut { st, inclusion: None, err: None }
                },
                DirectiveKind::Undef => if active {
                    DirectiveOut {
                        st: EngineView { macros: st.macros.remove(rest), ..st },
                        inclusion: None,
                        err: None,
                    }
                } else {
                    DirectiveOut { st, inclusion: None, err: None }
                },
                DirectiveKind::Error => if active {
                    DirectiveOut {
                        st,
                        inclusion: None,
                        err: Some(ErrKind::DirectiveError { message: rest }),
                    }
                } else {
                    DirectiveOut { st, inclusion: None, err: None }
                },
                DirectiveKind::Warning => if active {
                    DirectiveOut {
                        st: EngineView { warnings: st.warnings.push(rest), ..st },
                        inclusion: None,
                        err: None,
                    }
                } else {
                    DirectiveOut { st, inclusion: None, err: None }
                },
                DirectiveKind::Ifdef => DirectiveOut {
                    st: EngineView {
                        stack: st.stack.push(
                            if active {
                                if st.macros.contains_key(rest) {
                                    CondState::WithinTrueBlock
                                } else {
                                    CondState::NotYetFound
                                }
                            } else {
                                CondState::AlreadyFound
                            },
                        ),
                        ..st
                    },
                    inclusion: None,
                    err: None,
                },
                DirectiveKind::Ifndef => DirectiveOut {
                    st: EngineView {
                        stack: st.stack.push(
                            if active {
                                if !st.macros.contains_key(rest) {
                                    CondState::WithinTrueBlock
                                } else {
                                    CondState::NotYetFound
                                }
                            } else {
                                CondState::AlreadyFound
                            },
                        ),
                        ..st
                    },
                    inclusion: None,
                    err: None,
                },
                DirectiveKind::If => DirectiveOut {
                    st: EngineView {
                        stack: st.stack.push(
                            if active {
                                if truthy_condition(rest) {
                                    CondState::WithinTrueBlock
                                } else {
                                    CondState::NotYetFound
                                }
                            } else {
                                CondState::AlreadyFound
                            },
                        ),
                        ..st
                    },
                    inclusion: None,
                    err: None,
                },
                DirectiveKind::Elif => if st.stack.len() == 0 {
                    DirectiveOut {
                        st,
                        inclusion: None,
                        err: Some(ErrKind::UnbalancedConditional),
                    }
                } else if st.stack.last() == CondState::NotYetFound && truthy_condition(rest) {
                    DirectiveOut {
                        st: EngineView {
                            stack: st.stack.update(
                                st.stack.len() - 1,
                                CondState::WithinTrueBlock,
                            ),
                            ..st
                        },
                        inclusion: None,
                        err: None,
                    }
                } else if st.stack.last() == CondState::WithinTrueBlock {
                    DirectiveOut {
                        st: EngineView {
                            stack: st.stack.update(st.stack.len() - 1, CondState::AlreadyFound),
                            ..st
                        },
                        inclusion: None,
                        err: None,
                    }
                } else {
                    DirectiveOut { st, inclusion: None, err: None }
                },
                DirectiveKind::Else => if st.stack.len() == 0 {
                    DirectiveOut {
                        st,
                        inclusion: None,
                        err: Some(ErrKind::UnbalancedConditional),
                    }
                } else if st.stack.last() == CondState::WithinTrueBlock {
                    DirectiveOut {
                        st: EngineView {
                            stack: st.stack.update(st.stack.len() - 1, CondState::AlreadyFound),
                            ..st
                        },
                        inclusion: None,
                        err: None,
                    }
                } else if st.stack.last() == CondState::NotYetFound {
                    DirectiveOut {
                        st: EngineView {
                            stack: st.stack.update(
                                st.stack.len() - 1,
                                CondState::WithinTrueBlock,
                            ),
                            ..st
                        },
                        inclusion: None,
                        err: None,
                    }
                } else {
                    DirectiveOut { st, inclusion: None, err: None }
                },
                DirectiveKind::Endif => if st.stack.len() == 0 {
                    DirectiveOut {
                        st,
                        inclusion: None,
                        err: Some(ErrKind::UnbalancedConditional),
                    }
                } else {
                    DirectiveOut {
                        st: EngineView { stack: st.stack.drop_last(), ..st },
                        inclusion: None,
                        err: None,
                    }
                },
                DirectiveKind::Unknown => if active {
                    DirectiveOut {
                        st,
                        inclusion: None,
                        err: Some(ErrKind::UnknownDirective { name }),
                    }
                } else {
                    DirectiveOut { st, inclusion: None, err: None }
                },
            }
        },
    }
}

/// The preprocessing engine for one run: working buffers, the macro
/// table, the conditional stack, and the search roots and header files
/// it may resolve against.
pub struct PreProcessor {
    input: Vec<u8>,
    output: Vec<u8>,
    pub macros: MacroTable,
    state_stack: Vec<CondState>,
    search_dirs: Vec<Vec<u8>>,
    files: Vec<(Vec<u8>, Vec<u8>)>,
    warnings: Vec<Vec<u8>>,
}

impl View for PreProcessor {
    type V = EngineView;

    closed spec fn view(&self) -> EngineView {
        EngineView {
            input: self.input@,
            output: self.output@,
            macros: self.macros@,
            stack: self.state_stack@,
            search_dirs: param_views(self.search_dirs@),
            files: files_view(self.files@),
            warnings: param_views(self.warnings@),
        }
    }
}

impl PreProcessor {
    pub open spec fn wf(&self) -> bool {
        self.wf_macros()
    }

    pub closed spec fn wf_macros(&self) -> bool {
        self.macros.wf()
    }

    /// A fresh engine over the given search roots and header files.
    pub fn new(search_dirs: Vec<Vec<u8>>, files: Vec<(Vec<u8>, Vec<u8>)>) -> (r: PreProcessor)
        ensures
            r.wf(),
            r@ == (EngineView {
                input: Seq::<u8>::empty(),
                output: Seq::<u8>::empty(),
                macros: Map::<Seq<u8>, MacroDef>::empty(),
                stack: Seq::<CondState>::empty(),
                search_dirs: param_views(search_dirs@),
                files: files_view(files@),
                warnings: Seq::<Seq<u8>>::empty(),
            }),
    {
        let r = PreProcessor {
            input: Vec::new(),
            output: Vec::new(),
            macros: MacroTable::new(),
            state_stack: Vec::new(),
            search_dirs,
            files,
            warnings: Vec::new(),
        };
        proof {
            assert(param_views(r.warnings@) =~= Seq::<Seq<u8>>::empty());
        }
        r
    }

    /// Whether the innermost conditional frame is live.
    pub fn top_is_active(&self) -> (r: bool)
        ensures
            r == top_active(self@.stack),
    {
        let n = self.state_stack.len();
        if n == 0 {
            true
        } else {
            match self.state_stack[n - 1] {
                CondState::WithinTrueBlock => true,
                _ => false,
            }
        }
    }

    /// The accumulated output so far.
    pub fn get_output(&self) -> (r: Vec<u8>)
        ensures
            r@ == self@.output,
    {
        let mut r: Vec<u8> = Vec::new();
        push_all(&mut r, self.output.as_slice());
        proof {
            assert(r@ =~= self@.output);
        }
        r
    }

    /// The diagnostics `#warning` lines have produced so far.
    pub fn get_warnings(&self) -> (r: Vec<Vec<u8>>)
        ensures
            param_views(r@) == self@.warnings,
    {
        let mut r: Vec<Vec<u8>> = Vec::new();
        let n = self.warnings.len();
        let mut i: usize = 0;
        proof {
            assert(param_views(r@) =~= self@.warnings.subrange(0, 0));
        }
        while i < n
            invariant
                i <= n == self.warnings@.len(),
                param_views(r@) == param_views(self.warnings@).subrange(0, i as int),
            decreases n - i,
        {
            let mut w: Vec<u8> = Vec::new();
            push_all(&mut w, self.warnings[i].as_slice());
            let ghost pre = r@;
            r.push(w);
            proof {
                assert(param_views(r@) =~= param_views(pre).push(self.warnings@[i as int]@));
                assert(param_views(self.warnings@).subrange(0, i + 1 as int) =~= param_views(
                    self.warnings@).subrange(0, i as int).push(param_views(self.warnings@)[
                    i as int]));
            }
            i = i + 1;
        }
        proof {
            assert(param_views(self.warnings@).subrange(0, n as int) =~= param_views(
                self.warnings@));
        }
        r
    }

    /// Gathers the arguments of a function-like call from the text after
    /// the macro name.
    pub fn gather_macro_args(&self, s: &[u8]) -> (r: Option<(usize, Vec<Vec<u8>>)>)
        ensures
            match r {
                Some(t) => crate::expand::gather_args(s@, 0, 0, 0, 0, Seq::empty()) == Some(
                    (t.0 as int, param_views(t.1@)),
                ) && t.0 <= s@.len(),
                None => crate::expand::gather_args(s@, 0, 0, 0, 0, Seq::empty()) is None,
            },
    {
        gather_arg_list(s)
    }
}

/// The contents of the first `files` entry (from `i` on) whose path is
/// `path`.
pub open spec fn lookup_file(
    files: Seq<(Seq<u8>, Seq<u8>)>,
    path: Seq<u8>,
    i: int,
) -> Option<Seq<u8>>
    decreases files.len() - i,
{
    if i < 0 || i >= files.len() {
        None
    } else if files[i].0 == path {
        Some(files[i].1)
    } else {
        lookup_file(files, path, i + 1)
    }
}

/// `dir` joined with `name`: an absolute `name` stands alone; otherwise
/// the two with a single separating slash.
pub open spec fn join_path(dir: Seq<u8>, name: Seq<u8>) -> Seq<u8> {
    if name.len() > 0 && name[0] == SLASH {
        name
    } else if dir.len() > 0 && dir[dir.len() - 1] == SLASH {
        dir + name
    } else {
        dir + seq![SLASH] + name
    }
}

/// Resolution of a header name: the search roots are tried in order from
/// index `i`; the first whose joined path names a known file wins.
pub open spec fn resolve_from(
    dirs: Seq<Seq<u8>>,
    files: Seq<(Seq<u8>, Seq<u8>)>,
    name: Seq<u8>,
    i: int,
) -> Option<Seq<u8>>
    decreases dirs.len() - i,
{
    if i < 0 || i >= dirs.len() {
        None
    } else {
        match lookup_file(files, join_path(dirs[i], name), 0) {
            Some(c) => Some(c),
            None => resolve_from(dirs, files, name, i + 1),
        }
    }
}

pub open spec fn spec_resolve(
    dirs: Seq<Seq<u8>>,
    files: Seq<(Seq<u8>, Seq<u8>)>,
    name: Seq<u8>,
) -> Option<Seq<u8>> {
    resolve_from(dirs, files, name, 0)
}

/// One expander pass over the working buffer, at logical line `ln`.
pub open spec fn spec_process(st: EngineView, ln: int) -> Result<EngineView, ErrKind> {
    match run_expand(st.macros, st.input, Seq::empty(), 0, 0, ln, EXPAND_FUEL as nat) {
        ExpandOutcome::Completed { text } => Ok(
            EngineView {
                input: Seq::empty(),
                output: st.output + text + seq![NEWLINE],
                ..st
            },
        ),
        ExpandOutcome::Suspended { text, rest } => Ok(
            EngineView { input: rest, output: st.output + text, ..st },
        ),
        ExpandOutcome::ArityMismatch => Err(ErrKind::MacroArityMismatch),
        ExpandOutcome::OutOfFuel => Err(ErrKind::ExpansionOverflow),
    }
}

/// Feeding one logical line: the text joins the working buffer, which is
/// then processed.
pub open spec fn spec_feed(st: EngineView, text: Seq<u8>, ln: int) -> Result<EngineView, ErrKind> {
    spec_process(EngineView { input: st.input + text, ..st }, ln)
}

/// The engine over one source: its logical lines in order, directives
/// executed, active text fed to the expander, headers resolved and
/// preprocessed recursively into the same state.
pub open spec fn spec_engine(st: EngineView, source: Seq<u8>, depth: nat) -> Result<
    EngineView,
    ErrKind,
>
    decreases depth, logical_lines(source).len() + 4,
{
    spec_engine_lines(st, logical_lines(source), 0, depth)
}

/// The engine from line `i` on.
pub open spec fn spec_engine_lines(
    st: EngineView,
    lines: Seq<(int, Seq<u8>)>,
    i: int,
    depth: nat,
) -> Result<EngineView, ErrKind>
    decreases depth, lines.len() - i + 3,
{
    if i < 0 || i >= lines.len() {
        Ok(st)
    } else {
        match spec_engine_line(st, lines[i].0, lines[i].1, depth) {
            Err(k) => Err(k),
            Ok(st1) => spec_engine_lines(st1, lines, i + 1, depth),
        }
    }
}

/// One logical line of the engine: a directive line runs the directive
/// table (resolving and inlining a requested header); active text is fed
/// to the expander; inactive text is dropped.
pub open spec fn spec_engine_line(
    st: EngineView,
    ln: int,
    text: Seq<u8>,
    depth: nat,
) -> Result<EngineView, ErrKind>
    decreases depth, 2int,
{
    if is_directive_line(text) {
        let d = spec_run_directive(st, text);
        match d.err {
            Some(k) => Err(k),
            None => match d.inclusion {
                Some(h) => match spec_resolve(st.search_dirs, st.files, h) {
                    None => Err(ErrKind::HeaderNotFound { name: h }),
                    Some(contents) => if depth == 0 {
                        Err(ErrKind::NestingTooDeep)
                    } else {
                        spec_engine(d.st, contents, (depth - 1) as nat)
                    },
                },
                None => Ok(d.st),
            },
        }
    } else if top_active(st.stack) {
        spec_feed(st, text, ln)
    } else {
        Ok(st)
    }
}

/// The header name written in an inclusion rest.
fn parse_header_bytes(rest: &[u8]) -> (r: Option<Vec<u8>>)
    ensures
        match r {
            Some(h) => parse_header_name(rest@) == Some(h@),
            None => parse_header_name(rest@) is None,
        },
{
    if rest.len() >= 2 && rest[0] == QUOTE {
        let c = crate::bytes::find_byte(rest, 1, QUOTE);
        if 1 < c && c < rest.len() {
            let mut h: Vec<u8> = Vec::new();
            crate::bytes::push_range(&mut h, rest, 1, c);
            proof {
                assert(h@ =~= rest@.subrange(1, c as int));
            }
            Some(h)
        } else {
            None
        }
    } else if rest.len() >= 2 && rest[0] == LANGLE {
        let c = crate::bytes::find_byte(rest, 1, RANGLE);
        if 1 < c && c < rest.len() {
            let mut h: Vec<u8> = Vec::new();
            crate::bytes::push_range(&mut h, rest, 1, c);
            proof {
                assert(h@ =~= rest@.subrange(1, c as int));
            }
            Some(h)
        } else {
            None
        }
    } else {
        None
    }
}

/// `dir` joined with `name` as a path.
fn join_path_bytes(dir: &[u8], name: &[u8]) -> (r: Vec<u8>)
    ensures
        r@ == join_path(dir@, name@),
{
    let mut r: Vec<u8> = Vec::new();
    if name.len() > 0 && name[0] == SLASH {
        push_all(&mut r, name);
        proof {
            assert(r@ =~= name@);
        }
    } else if dir.len() > 0 && dir[dir.len() - 1] == SLASH {
        push_all(&mut r, dir);
        push_all(&mut r, name);
        proof {
            assert(r@ =~= dir@ + name@);
        }
    } else {
        push_all(&mut r, dir);
        r.push(SLASH);
        push_all(&mut r, name);
        proof {
            assert(r@ =~= dir@ + seq![SLASH] + name@);
        }
    }
    r
}

impl PreProcessor {
    /// The contents of the header file at `path`, if it is known.
    fn lookup_contents(&self, path: &[u8]) -> (r: Option<Vec<u8>>)
        ensures
            match r {
                Some(c) => lookup_file(self@.files, path@, 0) == Some(c@),
                None => lookup_file(self@.files, path@, 0) is None,
            },
    {
        let ghost fv = files_view(self.files@);
        let n = self.files.len();
        let mut i: usize = 0;
        while i < n
            invariant
                i <= n == self.files@.len(),
                fv == files_view(self.files@),
                lookup_file(fv, path@, 0) == lookup_file(fv, path@, i as int),
            decreases n - i,
        {
            proof {
                assert(fv[i as int] == (self.files@[i as int].0@, self.files@[i as int].1@));
            }
            if bytes_eq(self.files[i].0.as_slice(), path) {
                let mut c: Vec<u8> = Vec::new();
                push_all(&mut c, self.files[i].1.as_slice());
                proof {
                    assert(c@ =~= fv[i as int].1);
                }
                return Some(c);
            }
            i = i + 1;
        }
        None
    }

    /// Resolves a header name against the search roots, in order.
    fn resolve_header(&self, name: &[u8]) -> (r: Option<Vec<u8>>)
        ensures
            match r {
                Some(c) => spec_resolve(self@.search_dirs, self@.files, name@) == Some(c@),
                None => spec_resolve(self@.search_dirs, self@.files, name@) is None,
            },
    {
        let ghost dv = param_views(self.search_dirs@);
        let ghost fv = files_view(self.files@);
        let n = self.search_dirs.len();
        let mut i: usize = 0;
        while i < n
            invariant
                i <= n == self.search_dirs@.len(),
                dv == param_views(self.search_dirs@),
                fv == files_view(self.files@),
                resolve_from(dv, fv, name@, 0) == resolve_from(dv, fv, name@, i as int),
            decreases n - i,
        {
            proof {
                assert(dv[i as int] == self.search_dirs@[i as int]@);
            }
            let cand = join_path_bytes(self.search_dirs[i].as_slice(), name);
            match self.lookup_contents(cand.as_slice()) {
                Some(c) => {
                    return Some(c);
                },
                None => {},
            }
            i = i + 1;
        }
        None
    }

    /// Executes one directive line: the table's effect on the state, an
    /// inclusion request (`Ok(Some(name))`), or the directive's error.
    pub fn run_directive(&mut self, line: &[u8]) -> (r: Result<Option<Vec<u8>>, PreprocessError>)
        requires
            old(self).wf(),
        ensures
            final(self).wf(),
            ({
                let d = spec_run_directive(old(self)@, line@);
                match r {
                    Ok(opt) => d.err is None && final(self)@ == d.st && (match opt {
                        Some(h) => d.inclusion == Some(h@),
                        None => d.inclusion is None,
                    }),
                    Err(e) => d.err == Some(e@) && final(self)@ == old(self)@,
                }
            }),
    {
        let ghost st0 = self@;
        let i = skip_ws_idx(line, 0);
        if !(i < line.len() && line[i] == HASH) {
            return Err(PreprocessError::MalformedDirective);
        }
        let ns = skip_ws_idx(line, i + 1);
        let ne = lower_end_idx(line, ns);
        if ne == ns {
            return Err(PreprocessError::MalformedDirective);
        }
        let mut name: Vec<u8> = Vec::new();
        crate::bytes::push_range(&mut name, line, ns, ne);
        proof {
            assert(name@ =~= line@.subrange(ns as int, ne as int));
        }
        let rs = skip_ws_idx(line, ne);
        let rest = trim_range(line, rs, line.len());
        let kind = classify_directive(name.as_slice());
        let active = self.top_is_active();
        match kind {
            DirectiveKind::Inclusion => {
                if active {
                    match parse_header_bytes(rest.as_slice()) {
                        Some(h) => Ok(Some(h)),
                        None => Err(PreprocessError::MalformedDirective),
                    }
                } else {
                    Ok(None)
                }
            },
            DirectiveKind::Define => {
                if active {
                    if self.macros.define(rest.as_slice()) {
                        proof {
                            assert(self@ =~= spec_run_directive(st0, line@).st);
                        }
                        Ok(None)
                    } else {
                        Err(PreprocessError::MalformedDirective)
                    }
                } else {
                    Ok(None)
                }
            },
            DirectiveKind::Undef => {
                if active {
                    self.macros.undef(rest.as_slice());
                    proof {
                        assert(self@ =~= spec_run_directive(st0, line@).st);
                    }
                }
                Ok(None)
            },
            DirectiveKind::Error => {
                if active {
                    Err(PreprocessError::DirectiveError(rest))
                } else {
                    Ok(None)
                }
            },
            DirectiveKind::Warning => {
                if active {
                    let ghost pre = self.warnings@;
                    self.warnings.push(rest);
                    proof {
                        assert(param_views(self.warnings@) =~= param_views(pre).push(
                            trim(line@.subrange(rs as int, line@.len() as int))));
                        assert(self@ =~= spec_run_directive(st0, line@).st);
                    }
                }
                Ok(None)
            },
            DirectiveKind::Ifdef => {
                if active {
                    if self.macros.is_defined(rest.as_slice()) {
                        self.state_stack.push(CondState::WithinTrueBlock);
                    } else {
                        self.state_stack.push(CondState::NotYetFound);
                    }
                } else {
                    self.state_stack.push(CondState::AlreadyFound);
                }
                proof {
                    assert(self@ =~= spec_run_directive(st0, line@).st);
                }
                Ok(None)
            },
            DirectiveKind::Ifndef => {
                if active {
                    if !self.macros.is_defined(rest.as_slice()) {
                        self.state_stack.push(CondState::WithinTrueBlock);
                    } else {
                        self.state_stack.push(CondState::NotYetFound);
                    }
                } else {
                    self.state_stack.push(CondState::AlreadyFound);
                }
                proof {
                    assert(self@ =~= spec_run_directive(st0, line@).st);
                }
                Ok(None)
            },
            DirectiveKind::If => {
                if active {
                    if self.macros.expand_condition(rest.as_slice()) {
                        self.state_stack.push(CondState::WithinTrueBlock);
                    } else {
                        self.state_stack.push(CondState::NotYetFound);
                    }
                } else {
                    self.state_stack.push(CondState::AlreadyFound);
                }
                proof {
                    assert(self@ =~= spec_run_directive(st0, line@).st);
                }
                Ok(None)
            },
            DirectiveKind::Elif => {
                let n = self.state_stack.len();
                if n == 0 {
                    return Err(PreprocessError::UnbalancedConditional);
                }
                let ghost pre = self.state_stack@;
                let top = self.state_stack[n - 1];
                match top {
                    CondState::NotYetFound => {
                        if self.macros.expand_condition(rest.as_slice()) {
                            self.state_stack.pop();
                            self.state_stack.push(CondState::WithinTrueBlock);
                            proof {
                                assert(self.state_stack@ =~= pre.update(n as int - 1,
                                    CondState::WithinTrueBlock));
                            }
                        }
                    },
                    CondState::WithinTrueBlock => {
                        self.state_stack.pop();
                        self.state_stack.push(CondState::AlreadyFound);
                        proof {
                            assert(self.state_stack@ =~= pre.update(n as int - 1,
                                CondState::AlreadyFound));
                        }
                    },
                    CondState::AlreadyFound => {},
                }
                proof {
                    assert(self@ =~= spec_run_directive(st0, line@).st);
                }
                Ok(None)
            },
            DirectiveKind::Else => {
                let n = self.state_stack.len();
                if n == 0 {
                    return Err(PreprocessError::UnbalancedConditional);
                }
                let ghost pre = self.state_stack@;
                let top = self.state_stack[n - 1];
                match top {
                    CondState::WithinTrueBlock => {
                        self.state_stack.pop();
                        self.state_stack.push(CondState::AlreadyFound);
                        proof {
                            assert(self.state_stack@ =~= pre.update(n as int - 1,
                                CondState::AlreadyFound));
                        }
                    },
                    CondState::NotYetFound => {
                        self.state_stack.pop();
                        self.state_stack.push(CondState::WithinTrueBlock);
                        proof {
                            assert(self.state_stack@ =~= pre.update(n as int - 1,
                                CondState::WithinTrueBlock));
                        }
                    },
                    CondState::AlreadyFound => {},
                }
                proof {
                    assert(self@ =~= spec_run_directive(st0, line@).st);
                }
                Ok(None)
            },
            DirectiveKind::Endif => {
                let n = self.state_stack.len();
                if n == 0 {
                    return Err(PreprocessError::UnbalancedConditional);
                }
                self.state_stack.pop();
                proof {
                    assert(self@ =~= spec_run_directive(st0, line@).st);
                }
                Ok(None)
            },
            DirectiveKind::Unknown => {
                if active {
                    Err(PreprocessError::UnknownDirective(name))
                } else {
                    Ok(None)
                }
            },
        }
    }

    /// Runs the expander over the working buffer at logical line
    /// `line_number`.
    pub fn process_input(&mut self, line_number: usize) -> (r: Result<(), PreprocessError>)
        requires
            old(self).wf(),
        ensures
            final(self).wf(),
            match spec_process(old(self)@, line_number as int) {
                Ok(st) => r is Ok && final(self)@ == st,
                Err(k) => match r {
                    Err(e) => e@ == k,
                    _ => false,
                },
            },
    {
        let ghost st0 = self@;
        let r = process_buffer(&self.macros, &mut self.input, &mut self.output, line_number);
        proof {
            match spec_process(st0, line_number as int) {
                Ok(st) => {
                    assert(self@ =~= st);
                },
                Err(_) => {},
            }
        }
        r
    }

    /// Feeds one logical line to the expander.
    pub fn feed_line(&mut self, s: &[u8], line_number: usize) -> (r: Result<(), PreprocessError>)
        requires
            old(self).wf(),
        ensures
            final(self).wf(),
            match spec_feed(old(self)@, s@, line_number as int) {
                Ok(st) => r is Ok && final(self)@ == st,
                Err(k) => match r {
                    Err(e) => e@ == k,
                    _ => false,
                },
            },
    {
        let ghost st0 = self@;
        push_all(&mut self.input, s);
        proof {
            assert(self@ =~= (EngineView { input: st0.input + s@, ..st0 }));
        }
        self.process_input(line_number)
    }

    /// One line of the engine with an inclusion budget of `depth`.
    #[verifier::rlimit(100)]
    fn engine_step(&mut self, line_no: usize, text: &Vec<u8>, depth: u64) -> (r: Result<
        (),
        PreprocessError,
    >)
        requires
            old(self).wf(),
        ensures
            final(self).wf(),
            match spec_engine_line(old(self)@, line_no as int, text@, depth as nat) {
                Ok(st) => r is Ok && final(self)@ == st,
                Err(k) => match r {
                    Err(e) => e@ == k,
                    _ => false,
                },
            },
        decreases depth, 1int,
    {
        let j = skip_ws_idx(text.as_slice(), 0);
        let is_dir = j < text.len() && text[j] == HASH;
        if is_dir {
            match self.run_directive(text.as_slice()) {
                Err(e) => Err(e),
                Ok(None) => Ok(()),
                Ok(Some(h)) => {
                    match self.resolve_header(h.as_slice()) {
                        None => Err(PreprocessError::HeaderNotFound(h)),
                        Some(contents) => {
                            if depth == 0 {
                                Err(PreprocessError::NestingTooDeep)
                            } else {
                                self.preprocess_depth(contents.as_slice(), depth - 1)
                            }
                        },
                    }
                },
            }
        } else {
            if self.top_is_active() {
                self.feed_line(text.as_slice(), line_no)
            } else {
                Ok(())
            }
        }
    }

    /// Preprocesses one source with an inclusion budget of `depth`.
    fn preprocess_depth(&mut self, source: &[u8], depth: u64) -> (r: Result<(), PreprocessError>)
        requires
            old(self).wf(),
        ensures
            final(self).wf(),
            match spec_engine(old(self)@, source@, depth as nat) {
                Ok(st) => r is Ok && final(self)@ == st,
                Err(k) => match r {
                    Err(e) => e@ == k,
                    _ => false,
                },
            },
        decreases depth, 2int,
    {
        let lines = iter_lines(source);
        let ghost lv = numbered_view(lines@);
        let ghost st0 = self@;
        let n = lines.len();
        let mut i: usize = 0;
        while i < n
            invariant
                self.wf(),
                i <= n == lines@.len(),
                lv == numbered_view(lines@),
                lv == logical_lines(source@),
                st0 == old(self)@,
                spec_engine_lines(st0, lv, 0, depth as nat) == spec_engine_lines(self@, lv,
                    i as int, depth as nat),
            decreases n - i,
        {
            let ln = lines[i].0;
            let text = &lines[i].1;
            proof {
                assert(lv[i as int] == (lines@[i as int].0 as int, lines@[i as int].1@));
            }
            let ghost pre = self@;
            match self.engine_step(ln, text, depth) {
                Err(e) => {
                    proof {
                        assert(spec_engine_lines(pre, lv, i as int, depth as nat)
                            == Err::<EngineView, ErrKind>(e@));
                    }
                    return Err(e);
                },
                Ok(()) => {
                    proof {
                        assert(spec_engine_lines(pre, lv, i as int, depth as nat)
                            == spec_engine_lines(self@, lv, i as int + 1, depth as nat));
                    }
                },
            }
            i = i + 1;
        }
        proof {
            assert(spec_engine_lines(self@, lv, n as int, depth as nat) == Ok::<EngineView,
                ErrKind>(self@));
        }
        Ok(())
    }

    /// Preprocesses one source: directives executed, macros expanded,
    /// headers inlined at their point of occurrence.
    pub fn preprocess_source(&mut self, source: &[u8]) -> (r: Result<(), PreprocessError>)
        requires
            old(self).wf(),
        ensures
            final(self).wf(),
            match spec_engine(old(self)@, source@, NESTING_DEPTH as nat) {
                Ok(st) => r is Ok && final(self)@ == st,
                Err(k) => match r {
                    Err(e) => e@ == k,
                    _ => false,
                },
            },
    {
        self.preprocess_depth(source, NESTING_DEPTH)
    }
}

/// Classifies a directive name.
pub fn classify_directive(name: &[u8]) -> (k: DirectiveKind)
    ensures
        k == spec_directive_kind(name@),
{
    let mut w: Vec<u8> = Vec::new();
    w.push(105);
    w.push(110);
    w.push(99);
    w.push(108);
    w.push(117);
    w.push(100);
    w.push(101);
    proof {
        assert(w@ =~= kw_inclusion());
    }
    if bytes_eq(name, w.as_slice()) {
        return DirectiveKind::Inclusion;
    }
    let mut w: Vec<u8> = Vec::new();
    w.push(100);
    w.push(101);
    w.push(102);
    w.push(105);
    w.push(110);
    w.push(101);
    proof {
        assert(w@ =~= kw_define());
    }
    if bytes_eq(name, w.as_slice()) {
        return DirectiveKind::Define;
    }
    let mut w: Vec<u8> = Vec::new();
    w.push(117);
    w.push(110);
    w.push(100);
    w.push(101);
    w.push(102);
    proof {
        assert(w@ =~= kw_undef());
    }
    if bytes_eq(name, w.as_slice()) {
        return DirectiveKind::Undef;
    }
    let mut w: Vec<u8> = Vec::new();
    w.push(101);
    w.push(114);
    w.push(114);
    w.push(111);
    w.push(114);
    proof {
        assert(w@ =~= kw_error());
    }
    if bytes_eq(name, w.as_slice()) {
        return DirectiveKind::Error;
    }
    let mut w: Vec<u8> = Vec::new();
    w.push(119);
    w.push(97);
    w.push(114);
    w.push(110);
    w.push(105);
    w.push(110);
    w.push(103);
    proof {
        assert(w@ =~= kw_warning());
    }
    if bytes_eq(name, w.as_slice()) {
        return DirectiveKind::Warning;
    }
    let mut w: Vec<u8> = Vec::new();
    w.push(105);
    w.push(102);
    w.push(100);
    w.push(101);
    w.push(102);
    proof {
        assert(w@ =~= kw_ifdef());
    }
    if bytes_eq(name, w.as_slice()) {
        return DirectiveKind::Ifdef;
    }
    let mut w: Vec<u8> = Vec::new();
    w.push(105);
    w.push(102);
    w.push(110);
    w.push(100);
    w.push(101);
    w.push(102);
    proof {
        assert(w@ =~= kw_ifndef());
    }
    if bytes_eq(name, w.as_slice()) {
        return DirectiveKind::Ifndef;
    }
    let mut w: Vec<u8> = Vec::new();
    w.push(105);
    w.push(102);
    proof {
        assert(w@ =~= kw_if());
    }
    if bytes_eq(name, w.as_slice()) {
        return DirectiveKind::If;
    }
    let mut w: Vec<u8> = Vec::new();
    w.push(101);
    w.push(108);
    w.push(105);
    w.push(102);
    proof {
        assert(w@ =~= kw_elif());
    }
    if bytes_eq(name, w.as_slice()) {
        return DirectiveKind::Elif;
    }
    let mut w: Vec<u8> = Vec::new();
    w.push(101);
    w.push(108);
    w.push(115);
    w.push(101);
    proof {
        assert(w@ =~= kw_else());
    }
    if bytes_eq(name, w.as_slice()) {
        return DirectiveKind::Else;
    }
    let mut w: Vec<u8> = Vec::new();
    w.push(101);
    w.push(110);
    w.push(100);
    w.push(105);
    w.push(102);
    proof {
        assert(w@ =~= kw_endif());
    }
    if bytes_eq(name, w.as_slice()) {
        return DirectiveKind::Endif;
    }
    DirectiveKind::Unknown
}

} // verus!
