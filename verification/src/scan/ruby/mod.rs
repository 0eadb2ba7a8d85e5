//! The Ruby scanner.
//!
//! This module holds the walk over a parsed file: the scopes that it enters and
//! leaves, and what it does with a `t` call. What the walk asks is next door:
//! [`key`] resolves a key against its scope, [`args`] reduces the arguments of a
//! call, [`magic`] reads an `i18n-tasks-use` comment, and [`nodes`] holds the
//! parsed file itself.
//!
//! An interpolated key gives a key pattern, and a call whose key is unknown is
//! reported, so that neither passes for "no key is used here".
pub mod args;
pub mod key;
pub mod magic;
pub mod nodes;

use crate::bytes::utf8_text;
use crate::data::load::clone_texts;
use crate::keys::{underscore, underscore_of};
use crate::lineindex::{numbers, LineIndex};
use crate::scan::ruby::args::{
    args_model, keywords_upto, positional_upto, process_arguments, resolve_scope, scope_of, ArgV,
    ArgVal,
};
use crate::scan::ruby::key::{
    all_wildcard, full_key, is_all_wildcard, resolved_keys, template_parts, template_path, CallCtx,
    CallCtxV, Caps,
};
use crate::scan::ruby::magic::{
    calls_model, collect_translation_calls, magic_source, magic_source_of, t_calls_in,
    ExtractedCall, ExtractedV,
};
use crate::scan::ruby::nodes::{
    constant_names, constant_path_parts, is_i18n, is_i18n_receiver, is_t_name, is_translation_name,
    ruby_model, CallSite, CallSiteV, RubyNode, RubyV,
};
use crate::scan::{
    found_model, leaves_method_out, longest_root, nothing_found, occurrences_model, push_found,
    push_opaque, FileScan, FileScanV, Locator, LocatorV, Occurrence, OccurrenceV, ScanConfig,
    ScanConfigV, SourceMap,
};
use crate::text::{
    concat, contains, ends_with, has_text, push_text, strip_suffix, swap_char, swap_char_of, texts,
    without_suffix,
};
use vstd::prelude::*;
use vstd::utf8::*;

verus! {

// ---------------------------------------------------------------------- the scopes

/// What kind of scope the walk is in.
#[derive(Clone, Copy, PartialEq, Eq, Structural)]
pub enum ScopeKind {
    Module,
    Class {
        view_component: bool,
        /// Set by a `private` in the class.
        private_now: bool,
    },
    Method,
}

/// A scope that the walk has entered. `path` is resolved against the scopes
/// around it.
pub struct Scope {
    pub kind: ScopeKind,
    pub path: Vec<String>,
    pub caps: Caps,
}

/// What a [`Scope`] holds.
pub struct ScopeV {
    pub kind: ScopeKind,
    pub path: Seq<Seq<char>>,
    pub caps: Caps,
}

impl View for Scope {
    type V = ScopeV;

    open spec fn view(&self) -> ScopeV {
        ScopeV { kind: self.kind, path: texts(self.path@), caps: self.caps }
    }
}

/// What a list of scopes holds.
pub open spec fn scopes_model(v: Seq<Scope>) -> Seq<ScopeV> {
    Seq::new(v.len(), |i: int| v[i]@)
}

/// The bytes of a scope, and what a call inside it needs.
pub struct ScopeRange {
    pub start: usize,
    pub end: usize,
    pub ctx: CallCtx,
}

/// What a [`ScopeRange`] holds.
pub struct RangeV {
    pub start: int,
    pub end: int,
    pub ctx: CallCtxV,
}

impl View for ScopeRange {
    type V = RangeV;

    open spec fn view(&self) -> RangeV {
        RangeV { start: self.start as int, end: self.end as int, ctx: self.ctx@ }
    }
}

/// What a list of ranges holds.
pub open spec fn ranges_model(v: Seq<ScopeRange>) -> Seq<RangeV> {
    Seq::new(v.len(), |i: int| v[i]@)
}

/// What the path of a file says about the keys in it.
pub struct FileFacts {
    pub path: String,
    /// The parts of the path of a template under its relative root.
    pub root_path: Vec<String>,
    pub root_caps: Caps,
    pub append_method_name: bool,
    /// The file lies under a configured relative root.
    pub under_root: bool,
    pub view_component_file: bool,
}

/// What [`FileFacts`] hold.
pub struct FactsV {
    pub path: Seq<char>,
    pub root_path: Seq<Seq<char>>,
    pub root_caps: Caps,
    pub append_method_name: bool,
    pub under_root: bool,
    pub view_component_file: bool,
}

impl View for FileFacts {
    type V = FactsV;

    open spec fn view(&self) -> FactsV {
        FactsV {
            path: self.path@,
            root_path: texts(self.root_path@),
            root_caps: self.root_caps,
            append_method_name: self.append_method_name,
            under_root: self.under_root,
            view_component_file: self.view_component_file,
        }
    }
}

/// What the path of a file says about the keys in it. A `.rb` file is never a
/// template.
pub open spec fn facts_of(path: Seq<char>, cfg: ScanConfigV) -> FactsV {
    let posix = swap_char_of(path, '\\', '/');
    let root = longest_root(cfg.relative_roots, path);
    let is_rb = ".rb"@.is_suffix_of(posix);
    FactsV {
        path,
        root_path: if is_rb || root is None {
            Seq::empty()
        } else {
            template_parts(posix, root->Some_0)
        },
        root_caps: Caps { relative: !is_rb && root is Some, candidate: false },
        append_method_name: !(root is Some && leaves_method_out(
            cfg.relative_exclude_method_name_paths,
            root->Some_0,
        )),
        under_root: root is Some,
        view_component_file: has_text(posix, "app/components/"@),
    }
}

impl FileFacts {
    /// What the path of a file says about the keys in it.
    pub fn new(path: &str, cfg: &ScanConfig) -> (f: FileFacts)
        ensures
            f@ == facts_of(path@, cfg@),
    {
        let posix = swap_char(path, '\\', '/');
        let is_rb = ends_with(&posix, ".rb");
        let root = cfg.matching_root(path);
        let none: Vec<String> = Vec::new();
        assert(texts(none@) =~= Seq::empty());
        let (root_path, append_method_name) = match root {
            Some(r) => (
                if is_rb {
                    none
                } else {
                    template_path(&posix, r)
                },
                !cfg.skips_method_name(r),
            ),
            None => (none, true),
        };
        FileFacts {
            path: path.to_owned(),
            root_path,
            root_caps: Caps { relative: !is_rb && root.is_some(), candidate: false },
            append_method_name,
            under_root: root.is_some(),
            view_component_file: contains(&posix, "app/components/"),
        }
    }
}

/// What the walk has found so far.
pub struct Walk {
    pub scopes: Vec<Scope>,
    pub ranges: Vec<ScopeRange>,
    pub out: FileScan,
}

/// What a [`Walk`] holds.
pub struct WalkV {
    pub scopes: Seq<ScopeV>,
    pub ranges: Seq<RangeV>,
    pub out: FileScanV,
}

impl View for Walk {
    type V = WalkV;

    open spec fn view(&self) -> WalkV {
        WalkV {
            scopes: scopes_model(self.scopes@),
            ranges: ranges_model(self.ranges@),
            out: self.out@,
        }
    }
}

/// What a call needs from the scope that it stands in. In the body of a class
/// or a module no relative key resolves.
pub open spec fn ctx_in(f: FactsV, scopes: Seq<ScopeV>) -> CallCtxV {
    if scopes.len() == 0 {
        CallCtxV { path: f.root_path, caps: f.root_caps }
    } else {
        CallCtxV {
            path: scopes.last().path,
            caps: if scopes.last().kind == ScopeKind::Method {
                scopes.last().caps
            } else {
                Caps { relative: false, candidate: false }
            },
        }
    }
}

/// The path that a scope inside extends.
pub open spec fn path_in(f: FactsV, scopes: Seq<ScopeV>) -> Seq<Seq<char>> {
    if scopes.len() == 0 {
        f.root_path
    } else {
        scopes.last().path
    }
}

/// The class or module that a method belongs to: the innermost scope that is no
/// method.
pub open spec fn definition_around(scopes: Seq<ScopeV>) -> Option<ScopeV>
    decreases scopes.len(),
{
    if scopes.len() == 0 {
        None
    } else if scopes.last().kind != ScopeKind::Method {
        Some(scopes.last())
    } else {
        definition_around(scopes.drop_last())
    }
}

/// The scopes after a `private`: the innermost class takes note of it.
pub open spec fn made_private(scopes: Seq<ScopeV>) -> Seq<ScopeV>
    decreases scopes.len(),
{
    if scopes.len() == 0 {
        scopes
    } else {
        match scopes.last().kind {
            ScopeKind::Class { view_component, .. } => scopes.drop_last().push(
                ScopeV {
                    kind: ScopeKind::Class { view_component, private_now: true },
                    ..scopes.last()
                },
            ),
            _ => made_private(scopes.drop_last()).push(scopes.last()),
        }
    }
}

/// The scope of a module.
pub open spec fn module_scope(f: FactsV, scopes: Seq<ScopeV>, name: Seq<char>) -> ScopeV {
    ScopeV {
        kind: ScopeKind::Module,
        path: path_in(f, scopes).push(underscore_of(name)),
        caps: Caps { relative: false, candidate: false },
    }
}

/// Names in the spelling of keys.
pub open spec fn underscored(names: Seq<Seq<char>>) -> Seq<Seq<char>> {
    Seq::new(names.len(), |i: int| underscore_of(names[i]))
}

/// Names of which the last one loses `_controller` at its end.
pub open spec fn without_controller(names: Seq<Seq<char>>) -> Seq<Seq<char>> {
    if names.len() == 0 {
        names
    } else {
        match without_suffix(names.last(), "_controller"@) {
            Some(rest) => names.drop_last().push(rest),
            None => names,
        }
    }
}

/// The scope of a class. Controllers, mailers, view components and the classes
/// of files under a relative root support relative keys.
pub open spec fn class_scope(
    f: FactsV,
    scopes: Seq<ScopeV>,
    name: Seq<char>,
    constant: Seq<Seq<char>>,
) -> ScopeV {
    let controller = "Controller"@.is_suffix_of(name);
    let mailer = "Mailer"@.is_suffix_of(name);
    let own = if controller {
        without_controller(underscored(constant))
    } else {
        underscored(constant)
    };
    ScopeV {
        kind: ScopeKind::Class { view_component: f.view_component_file, private_now: false },
        path: path_in(f, scopes) + own,
        caps: Caps {
            relative: controller || mailer || f.view_component_file || f.under_root,
            candidate: controller,
        },
    }
}

/// The scope of a method. It belongs to the class or module around it, never to
/// another method. A view component leaves the name of the method out.
pub open spec fn method_scope(f: FactsV, scopes: Seq<ScopeV>, name: Seq<char>) -> ScopeV {
    let around = definition_around(scopes);
    let path = match around {
        Some(s) => s.path,
        None => f.root_path,
    };
    let caps = match around {
        Some(s) => s.caps,
        None => f.root_caps,
    };
    let (view_component, private_method) = match around {
        Some(s) => match s.kind {
            ScopeKind::Class { view_component, private_now } => (view_component, private_now),
            _ => (false, false),
        },
        None => (false, false),
    };
    ScopeV {
        kind: ScopeKind::Method,
        path: if view_component || !f.append_method_name {
            path
        } else {
            path.push(name)
        },
        caps: Caps { relative: !private_method && caps.relative, candidate: caps.candidate },
    }
}

/// The walk after it entered a scope.
pub open spec fn entered(f: FactsV, w: WalkV, scope: ScopeV, start: int, end: int) -> WalkV {
    let scopes = w.scopes.push(scope);
    WalkV {
        scopes,
        ranges: w.ranges.push(RangeV { start, end, ctx: ctx_in(f, scopes) }),
        out: w.out,
    }
}

/// The walk after it left a scope.
pub open spec fn left(w: WalkV) -> WalkV {
    if w.scopes.len() == 0 {
        w
    } else {
        WalkV { scopes: w.scopes.drop_last(), ..w }
    }
}

fn current_ctx(f: &FileFacts, w: &Walk) -> (ctx: CallCtx)
    ensures
        ctx@ == ctx_in(f@, w@.scopes),
{
    let n = w.scopes.len();
    assert(w@.scopes.len() == n);
    if n == 0 {
        return CallCtx { path: clone_texts(&f.root_path), caps: f.root_caps };
    }
    let s = &w.scopes[n - 1];
    assert(w@.scopes.last() == s@);
    CallCtx {
        path: clone_texts(&s.path),
        caps: match s.kind {
            ScopeKind::Method => s.caps,
            _ => Caps { relative: false, candidate: false },
        },
    }
}

fn parent_path(f: &FileFacts, w: &Walk) -> (path: Vec<String>)
    ensures
        texts(path@) == path_in(f@, w@.scopes),
{
    let n = w.scopes.len();
    assert(w@.scopes.len() == n);
    if n == 0 {
        clone_texts(&f.root_path)
    } else {
        assert(w@.scopes.last() == w.scopes@[n - 1]@);
        clone_texts(&w.scopes[n - 1].path)
    }
}

fn enclosing_definition(w: &Walk) -> (r: Option<&Scope>)
    ensures
        definition_around(w@.scopes) == match r {
            Some(s) => Some(s@),
            None => None,
        },
{
    let ghost model = w@.scopes;
    let mut n: usize = w.scopes.len();
    assert(model.take(n as int) =~= model);
    while n > 0
        invariant
            n <= w.scopes.len() == model.len(),
            model == scopes_model(w.scopes@),
            definition_around(model.take(n as int)) == definition_around(model),
            model == w@.scopes,
        decreases n,
    {
        let s = &w.scopes[n - 1];
        assert(model.take(n as int).last() == s@);
        assert(model.take(n as int).drop_last() =~= model.take(n - 1));
        match s.kind {
            ScopeKind::Method => {},
            _ => {
                return Some(s);
            },
        }
        n = n - 1;
    }
    assert(model.take(0) =~= Seq::empty());
    None
}

/// The scopes after a `private`, seen from the first `n` of them.
proof fn private_in_prefix(scopes: Seq<ScopeV>, n: int)
    requires
        0 < n <= scopes.len(),
        forall|k: int|
            n <= k < scopes.len() ==> !((#[trigger] scopes[k]).kind is Class),
    ensures
        made_private(scopes) == made_private(scopes.take(n)) + scopes.skip(n),
    decreases scopes.len() - n,
{
    if n == scopes.len() {
        assert(scopes.take(n) =~= scopes);
        assert(made_private(scopes) + scopes.skip(n) =~= made_private(scopes));
    } else {
        let rest = scopes.drop_last();
        assert(!(scopes[scopes.len() - 1].kind is Class));
        assert forall|k: int| n <= k < rest.len() implies !((#[trigger] rest[k]).kind is Class) by {
            assert(rest[k] == scopes[k]);
        }
        private_in_prefix(rest, n);
        assert(rest.take(n) =~= scopes.take(n));
        assert(rest.skip(n).push(scopes.last()) =~= scopes.skip(n));
        assert(made_private(scopes) =~= made_private(scopes.take(n)) + scopes.skip(n));
    }
}

proof fn nothing_private(scopes: Seq<ScopeV>)
    requires
        forall|k: int| 0 <= k < scopes.len() ==> !((#[trigger] scopes[k]).kind is Class),
    ensures
        made_private(scopes) == scopes,
    decreases scopes.len(),
{
    if scopes.len() > 0 {
        let rest = scopes.drop_last();
        assert(!(scopes[scopes.len() - 1].kind is Class));
        assert forall|k: int| 0 <= k < rest.len() implies !((#[trigger] rest[k]).kind is Class) by {
            assert(rest[k] == scopes[k]);
        }
        nothing_private(rest);
        assert(rest.push(scopes.last()) =~= scopes);
    }
}

fn make_private(w: &mut Walk)
    ensures
        final(w)@ == (WalkV { scopes: made_private(old(w)@.scopes), ..old(w)@ }),
{
    let ghost model = w@.scopes;
    let ghost start = w@;
    let mut n: usize = w.scopes.len();
    while n > 0
        invariant
            n <= w.scopes.len() == model.len(),
            model == scopes_model(w.scopes@),
            w@ == start,
            start == old(w)@,
            start.scopes == model,
            forall|k: int| n <= k < model.len() ==> !((#[trigger] model[k]).kind is Class),
        decreases n,
    {
        assert(model[n - 1] == w.scopes@[n - 1]@);
        if let ScopeKind::Class { view_component, .. } = w.scopes[n - 1].kind {
            let path = clone_texts(&w.scopes[n - 1].path);
            let caps = w.scopes[n - 1].caps;
            let scope = Scope {
                kind: ScopeKind::Class { view_component, private_now: true },
                path,
                caps,
            };
            w.scopes.set(n - 1, scope);
            proof {
                private_in_prefix(model, n as int);
                let prefix = model.take(n as int);
                assert(prefix.last() == model[n - 1]);
                assert(scopes_model(w.scopes@) =~= prefix.drop_last().push(scope@) + model.skip(
                    n as int,
                ));
            }
            return ;
        }
        n = n - 1;
    }
    proof {
        nothing_private(model);
    }
}

// -------------------------------------------------------------- translation calls

/// An occurrence at an offset.
pub open spec fn occurrence_of(
    f: FactsV,
    loc: LocatorV,
    start: int,
    snippet: Seq<char>,
    raw_key: Seq<char>,
    candidate_keys: Seq<Seq<char>>,
) -> OccurrenceV {
    let (pos, line_num, line_pos) = loc.place(start);
    OccurrenceV { path: f.path, snippet, pos, line_pos, line_num, raw_key, candidate_keys }
}

fn occurrence(
    f: &FileFacts,
    loc: &Locator,
    start: usize,
    snippet: &str,
    raw_key: &str,
    candidates: &Vec<String>,
) -> (occ: Occurrence)
    ensures
        occ@ == occurrence_of(f@, loc@, start as int, snippet@, raw_key@, texts(candidates@)),
        occ.line_num >= 1,
{
    let (pos, line_num, line_pos) = loc.locate(start);
    Occurrence {
        path: f.path.clone(),
        snippet: snippet.to_owned(),
        pos,
        line_pos,
        line_num,
        raw_key: raw_key.to_owned(),
        candidate_keys: clone_texts(candidates),
    }
}

/// The scan with a key that was found. A key that ends with a dot is built up
/// elsewhere, so it gives a pattern as well.
pub open spec fn with_key(out: FileScanV, key: Seq<char>, occ: OccurrenceV) -> FileScanV {
    FileScanV {
        keys: out.keys.push((key, occ)),
        patterns: if "."@.is_suffix_of(key) && !all_wildcard(key + "*:"@) {
            out.patterns.push((key + "*:"@, occ))
        } else {
            out.patterns
        },
        opaque: out.opaque,
    }
}

/// The scan with a pattern that was found. A pattern without a static part
/// would mark every key used, so it counts as an unknown key.
pub open spec fn with_pattern(out: FileScanV, pattern: Seq<char>, occ: OccurrenceV) -> FileScanV {
    if all_wildcard(pattern) {
        FileScanV { opaque: out.opaque.push(occ), ..out }
    } else {
        FileScanV { patterns: out.patterns.push((pattern, occ)), ..out }
    }
}

/// What a `t` call adds to a scan. A receiver other than `I18n`, a scope that
/// is not static and a key that is no text drop the call; a key that is unknown
/// is reported.
pub open spec fn with_call(
    f: FactsV,
    loc: LocatorV,
    out: FileScanV,
    call: CallSiteV,
    ctx: CallCtxV,
) -> FileScanV {
    let args = positional_upto(call.arguments, call.arguments.len());
    if call.receiver is Some && !is_i18n(call.receiver->Some_0) {
        out
    } else {
        match scope_of(keywords_upto(call.arguments, call.arguments.len())) {
            Err(_) => out,
            Ok(scope) => if args.len() == 0 {
                out
            } else {
                match args[0] {
                    ArgV::Str(key) => match resolved_keys(key, scope, ctx, call.receiver is Some) {
                        None => out,
                        Some(keys) => with_key(
                            out,
                            keys[0],
                            occurrence_of(f, loc, call.start, call.snippet, key, keys),
                        ),
                    },
                    ArgV::Pattern(pat) => match resolved_keys(
                        pat,
                        scope,
                        ctx,
                        call.receiver is Some,
                    ) {
                        None => out,
                        Some(keys) => with_pattern(
                            out,
                            keys[0],
                            occurrence_of(f, loc, call.start, call.snippet, pat, keys),
                        ),
                    },
                    ArgV::Unresolvable => with_unknown(f, loc, out, call),
                    ArgV::Nil => with_unknown(f, loc, out, call),
                    _ => out,
                }
            },
        }
    }
}

/// The scan with a call whose key is unknown.
pub open spec fn with_unknown(
    f: FactsV,
    loc: LocatorV,
    out: FileScanV,
    call: CallSiteV,
) -> FileScanV {
    FileScanV {
        opaque: out.opaque.push(
            occurrence_of(f, loc, call.start, call.snippet, call.snippet, Seq::empty()),
        ),
        ..out
    }
}

fn push_key(out: &mut FileScan, key: String, occ: Occurrence)
    ensures
        final(out)@ == with_key(old(out)@, key@, occ@),
{
    if ends_with(&key, ".") {
        let pattern = concat(&key, "*:");
        if !is_all_wildcard(&pattern) {
            push_found(&mut out.patterns, pattern, occ.clone());
        }
    }
    push_found(&mut out.keys, key, occ);
}

fn push_pattern(out: &mut FileScan, pattern: String, occ: Occurrence)
    ensures
        final(out)@ == with_pattern(old(out)@, pattern@, occ@),
{
    if is_all_wildcard(&pattern) {
        push_opaque(&mut out.opaque, occ);
    } else {
        push_found(&mut out.patterns, pattern, occ);
    }
}

/// Adds what a `t` call says to a scan.
pub fn handle_translation_call(
    f: &FileFacts,
    loc: &Locator,
    out: &mut FileScan,
    call: &CallSite,
    ctx: &CallCtx,
)
    ensures
        final(out)@ == with_call(f@, loc@, old(out)@, call@, ctx@),
{
    let receiver_present = match &call.receiver {
        Some(recv) => {
            if !is_i18n_receiver(recv) {
                return ;
            }
            true
        },
        None => false,
    };
    assert(call@.arguments.len() == call.arguments@.len());
    let (args, kwargs) = process_arguments(&call.arguments);
    assert(args_model(args@).len() == args.len());
    let scope = match resolve_scope(&kwargs) {
        Ok(scope) => scope,
        Err(_) => {
            return ;
        },
    };
    if args.len() == 0 {
        return ;
    }
    assert(args_model(args@)[0] == args@[0]@);
    let scope_text = match &scope {
        Some(s) => Some(s.as_str()),
        None => None,
    };
    match &args[0] {
        ArgVal::Str(key) => {
            let keys = match full_key(key, scope_text, ctx, receiver_present) {
                Some(keys) => keys,
                None => {
                    return ;
                },
            };
            assert(texts(keys@)[0] == keys@[0]@);
            let occ = occurrence(f, loc, call.start, &call.snippet, key, &keys);
            push_key(out, keys[0].clone(), occ);
        },
        ArgVal::Pattern(pat) => {
            let keys = match full_key(pat, scope_text, ctx, receiver_present) {
                Some(keys) => keys,
                None => {
                    return ;
                },
            };
            assert(texts(keys@)[0] == keys@[0]@);
            let occ = occurrence(f, loc, call.start, &call.snippet, pat, &keys);
            push_pattern(out, keys[0].clone(), occ);
        },
        ArgVal::Unresolvable => {
            push_unknown(f, loc, out, call);
        },
        ArgVal::Nil => {
            push_unknown(f, loc, out, call);
        },
        _ => {},
    }
}

fn push_unknown(f: &FileFacts, loc: &Locator, out: &mut FileScan, call: &CallSite)
    ensures
        final(out)@ == with_unknown(f@, loc@, old(out)@, call@),
{
    let none: Vec<String> = Vec::new();
    assert(texts(none@) =~= Seq::empty());
    let occ = occurrence(f, loc, call.start, &call.snippet, &call.snippet, &none);
    push_opaque(&mut out.opaque, occ);
}

// ----------------------------------------------------------------------- the walk

/// The walk after a node.
pub open spec fn visited(node: RubyV, f: FactsV, loc: LocatorV, w: WalkV) -> WalkV
    decreases node, 0nat,
{
    match node {
        RubyV::Module { name, start, end, body } => left(
            visited_all(
                body,
                body.len(),
                f,
                loc,
                entered(f, w, module_scope(f, w.scopes, name), start, end),
            ),
        ),
        RubyV::Class { name, constant, start, end, body } => left(
            visited_all(
                body,
                body.len(),
                f,
                loc,
                entered(
                    f,
                    w,
                    class_scope(f, w.scopes, name, constant_names(constant)),
                    start,
                    end,
                ),
            ),
        ),
        RubyV::Def { name, start, end, body } => left(
            visited_all(
                body,
                body.len(),
                f,
                loc,
                entered(f, w, method_scope(f, w.scopes, name), start, end),
            ),
        ),
        RubyV::Call { method, call, body } => if method == encode_utf8("private"@) {
            visited_all(
                body,
                body.len(),
                f,
                loc,
                WalkV { scopes: made_private(w.scopes), ..w },
            )
        } else if is_t_name(method) {
            let after = WalkV {
                out: with_call(f, loc, w.out, call, ctx_in(f, w.scopes)),
                ..w
            };
            if call.receiver is Some && !is_i18n(call.receiver->Some_0) {
                after
            } else {
                visited_all(body, body.len(), f, loc, after)
            }
        } else {
            visited_all(body, body.len(), f, loc, w)
        },
    }
}

/// The walk after the first `n` nodes.
pub open spec fn visited_all(
    nodes: Seq<RubyV>,
    n: nat,
    f: FactsV,
    loc: LocatorV,
    w: WalkV,
) -> WalkV
    decreases nodes, n,
{
    if n == 0 || n > nodes.len() {
        w
    } else {
        visited(nodes[n - 1], f, loc, visited_all(nodes, (n - 1) as nat, f, loc, w))
    }
}

fn enter(f: &FileFacts, w: &mut Walk, scope: Scope, start: usize, end: usize)
    ensures
        final(w)@ == entered(f@, old(w)@, scope@, start as int, end as int),
{
    let ghost scopes = w@.scopes;
    let ghost ranges = w@.ranges;
    w.scopes.push(scope);
    assert(scopes_model(w.scopes@) =~= scopes.push(scope@));
    let ctx = current_ctx(f, w);
    let range = ScopeRange { start, end, ctx };
    w.ranges.push(range);
    assert(ranges_model(w.ranges@) =~= ranges.push(range@));
}

fn leave(w: &mut Walk)
    ensures
        final(w)@ == left(old(w)@),
{
    let ghost scopes = w@.scopes;
    assert(scopes.len() == w.scopes.len());
    if w.scopes.len() > 0 {
        let _ = w.scopes.pop();
        assert(scopes_model(w.scopes@) =~= scopes.drop_last());
    }
}

fn scope_of_module(f: &FileFacts, w: &Walk, name: &str) -> (s: Scope)
    ensures
        s@ == module_scope(f@, w@.scopes, name@),
{
    let mut path = parent_path(f, w);
    push_text(&mut path, underscore(name));
    Scope { kind: ScopeKind::Module, path, caps: Caps { relative: false, candidate: false } }
}

fn scope_of_class(f: &FileFacts, w: &Walk, name: &str, constant: &nodes::Expr) -> (s: Scope)
    ensures
        s@ == class_scope(f@, w@.scopes, name@, constant_names(constant@)),
{
    let controller = ends_with(name, "Controller");
    let mailer = ends_with(name, "Mailer");
    let names = constant_path_parts(constant);
    let ghost model = constant_names(constant@);
    assert(model.len() == names.len());
    let mut own: Vec<String> = Vec::new();
    let mut i: usize = 0;
    while i < names.len()
        invariant
            i <= names.len(),
            own.len() == i,
            model == texts(names@),
            forall|j: int| 0 <= j < i ==> (#[trigger] own@[j])@ == underscore_of(model[j]),
        decreases names.len() - i,
    {
        assert(model[i as int] == names@[i as int]@);
        own.push(underscore(&names[i]));
        i = i + 1;
    }
    assert(texts(own@) =~= underscored(model));
    if controller {
        let ghost all = texts(own@);
        assert(all.len() == own.len());
        if let Some(last) = own.pop() {
            assert(all.last() == last@);
            assert(texts(own@) =~= all.drop_last());
            match strip_suffix(&last, "_controller") {
                Some(rest) => {
                    push_text(&mut own, rest);
                },
                None => {
                    push_text(&mut own, last);
                    assert(all.drop_last().push(all.last()) =~= all);
                },
            }
        }
        assert(texts(own@) =~= without_controller(all));
    }
    let mut path = parent_path(f, w);
    crate::config::extend_texts(&mut path, &own);
    Scope {
        kind: ScopeKind::Class { view_component: f.view_component_file, private_now: false },
        path,
        caps: Caps {
            relative: controller || mailer || f.view_component_file || f.under_root,
            candidate: controller,
        },
    }
}

fn scope_of_method(f: &FileFacts, w: &Walk, name: &str) -> (s: Scope)
    ensures
        s@ == method_scope(f@, w@.scopes, name@),
{
    let (mut path, caps, view_component, private_method) = match enclosing_definition(w) {
        Some(s) => match s.kind {
            ScopeKind::Class { view_component, private_now } => (
                clone_texts(&s.path),
                s.caps,
                view_component,
                private_now,
            ),
            _ => (clone_texts(&s.path), s.caps, false, false),
        },
        None => (clone_texts(&f.root_path), f.root_caps, false, false),
    };
    if !view_component && f.append_method_name {
        push_text(&mut path, name.to_owned());
    }
    Scope {
        kind: ScopeKind::Method,
        path,
        caps: Caps { relative: !private_method && caps.relative, candidate: caps.candidate },
    }
}

/// Walks over a node.
pub fn visit(node: &RubyNode, f: &FileFacts, loc: &Locator, w: &mut Walk)
    ensures
        final(w)@ == visited(node@, f@, loc@, old(w)@),
    decreases node, 1nat,
{
    match node {
        RubyNode::Module { name, start, end, body } => {
            assert(node@->Module_body =~= ruby_model(body@));
            let scope = scope_of_module(f, w, name);
            enter(f, w, scope, *start, *end);
            visit_all(body, f, loc, w);
            leave(w);
        },
        RubyNode::Class { name, constant, start, end, body } => {
            assert(node@->Class_body =~= ruby_model(body@));
            let scope = scope_of_class(f, w, name, constant);
            enter(f, w, scope, *start, *end);
            visit_all(body, f, loc, w);
            leave(w);
        },
        RubyNode::Def { name, start, end, body } => {
            assert(node@->Def_body =~= ruby_model(body@));
            let scope = scope_of_method(f, w, name);
            enter(f, w, scope, *start, *end);
            visit_all(body, f, loc, w);
            leave(w);
        },
        RubyNode::Call { method, call, body } => {
            assert(node@->Call_body =~= ruby_model(body@));
            if crate::bytes::bytes_are(method, "private") {
                make_private(w);
            } else if is_translation_name(method) {
                let ctx = current_ctx(f, w);
                handle_translation_call(f, loc, &mut w.out, call, &ctx);
                if let Some(recv) = &call.receiver {
                    if !is_i18n_receiver(recv) {
                        return ;
                    }
                }
            }
            visit_all(body, f, loc, w);
        },
    }
}

#[verifier::loop_isolation(false)]
fn visit_all(nodes: &Vec<RubyNode>, f: &FileFacts, loc: &Locator, w: &mut Walk)
    ensures
        final(w)@ == visited_all(ruby_model(nodes@), nodes@.len(), f@, loc@, old(w)@),
    decreases nodes,
{
    let ghost model = ruby_model(nodes@);
    let ghost start = w@;
    let mut i: usize = 0;
    while i < nodes.len()
        invariant
            i <= nodes.len(),
            model == ruby_model(nodes@),
            w@ == visited_all(model, i as nat, f@, loc@, start),
        decreases nodes.len() - i,
    {
        assert(decreases_to!(*nodes => nodes@[i as int]));
        assert(model[i as int] == nodes@[i as int]@);
        visit(&nodes[i], f, loc, w);
        i = i + 1;
    }
}

// --------------------------------------------------------------------- the comments

/// A comment of a Ruby file.
pub struct Comment {
    pub offset: usize,
    pub text: Vec<u8>,
    /// What the source that a magic comment stands for parses to; `None` where
    /// it does not parse, or the comment is not a magic one.
    pub nested: Option<Vec<RubyNode>>,
}

/// What a [`Comment`] holds.
pub struct CommentV {
    pub offset: int,
    pub text: Seq<u8>,
    pub nested: Option<Seq<RubyV>>,
}

impl View for Comment {
    type V = CommentV;

    open spec fn view(&self) -> CommentV {
        CommentV {
            offset: self.offset as int,
            text: self.text@,
            nested: match self.nested {
                Some(v) => Some(ruby_model(v@)),
                None => None,
            },
        }
    }
}

/// What a list of comments holds.
pub open spec fn comments_model(v: Seq<Comment>) -> Seq<CommentV> {
    Seq::new(v.len(), |i: int| v[i]@)
}

/// The smallest of the first `n` ranges that hold the offset, the first one of
/// that size; -1 where none holds it.
pub open spec fn innermost(ranges: Seq<RangeV>, offset: int, n: int) -> int
    decreases n,
{
    if n <= 0 {
        -1
    } else {
        let best = innermost(ranges, offset, n - 1);
        let r = ranges[n - 1];
        if r.start <= offset < r.end && (best < 0 || r.end - r.start < ranges[best].end
            - ranges[best].start) {
            n - 1
        } else {
            best
        }
    }
}

/// What a call in a comment needs: that of the innermost scope around it.
pub open spec fn comment_ctx(f: FactsV, ranges: Seq<RangeV>, offset: int) -> CallCtxV {
    let i = innermost(ranges, offset, ranges.len() as int);
    if i < 0 {
        CallCtxV { path: f.root_path, caps: f.root_caps }
    } else {
        ranges[i].ctx
    }
}

fn resolve_comment_ctx(f: &FileFacts, ranges: &Vec<ScopeRange>, offset: usize) -> (ctx: CallCtx)
    ensures
        ctx@ == comment_ctx(f@, ranges_model(ranges@), offset as int),
{
    let ghost model = ranges_model(ranges@);
    assert(model.len() == ranges.len());
    let mut best: Option<usize> = None;
    let mut i: usize = 0;
    while i < ranges.len()
        invariant
            i <= ranges.len(),
            model == ranges_model(ranges@),
            match best {
                Some(b) => b < i && innermost(model, offset as int, i as int) == b && model[b as int].start
                    <= offset < model[b as int].end,
                None => innermost(model, offset as int, i as int) == -1,
            },
        decreases ranges.len() - i,
    {
        let r = &ranges[i];
        assert(model[i as int] == r@);
        if r.start <= offset && offset < r.end {
            let smaller = match best {
                Some(b) => {
                    assert(model[b as int] == ranges@[b as int]@);
                    r.end - r.start < ranges[b].end - ranges[b].start
                },
                None => true,
            };
            if smaller {
                best = Some(i);
            }
        }
        i = i + 1;
    }
    match best {
        Some(b) => {
            assert(model[b as int] == ranges@[b as int]@);
            ranges[b].ctx.clone()
        },
        None => CallCtx { path: clone_texts(&f.root_path), caps: f.root_caps },
    }
}

/// The key that a call in a comment names, with its candidates.
pub open spec fn magic_keys(call: ExtractedV, ctx: CallCtxV) -> Option<
    (Seq<char>, Seq<Seq<char>>),
> {
    if call.receiver_present && !call.receiver_is_i18n {
        None
    } else {
        match scope_of(call.kwargs) {
            Err(_) => None,
            Ok(scope) => if call.args.len() == 0 {
                None
            } else {
                match call.args[0] {
                    ArgV::Str(key) => match resolved_keys(key, scope, ctx, call.receiver_present) {
                        Some(keys) => Some((key, keys)),
                        None => None,
                    },
                    _ => None,
                }
            },
        }
    }
}

/// The keys that the first `n` calls of a comment add. They all stand where the
/// comment stands.
pub open spec fn magic_found(
    f: FactsV,
    loc: LocatorV,
    offset: int,
    text: Seq<char>,
    ctx: CallCtxV,
    calls: Seq<ExtractedV>,
    n: int,
) -> Seq<(Seq<char>, OccurrenceV)>
    decreases n,
{
    if n <= 0 {
        Seq::empty()
    } else {
        let before = magic_found(f, loc, offset, text, ctx, calls, n - 1);
        match magic_keys(calls[n - 1], ctx) {
            Some((key, keys)) => before.push(
                (keys[0], occurrence_of(f, loc, offset, text, key, keys)),
            ),
            None => before,
        }
    }
}

/// The keys that a comment adds.
pub open spec fn comment_found(
    f: FactsV,
    loc: LocatorV,
    ranges: Seq<RangeV>,
    comment: CommentV,
) -> Seq<(Seq<char>, OccurrenceV)> {
    if magic_source_of(comment.text) is None || comment.nested is None {
        Seq::empty()
    } else {
        let nodes = comment.nested->Some_0;
        let calls = t_calls_in(nodes, nodes.len());
        magic_found(
            f,
            loc,
            comment.offset,
            decode_utf8(comment.text),
            comment_ctx(f, ranges, comment.offset),
            calls,
            calls.len() as int,
        )
    }
}

fn handle_call(
    f: &FileFacts,
    loc: &Locator,
    offset: usize,
    text: &str,
    ctx: &CallCtx,
    call: &ExtractedCall,
) -> (r: Option<(String, Occurrence)>)
    ensures
        match r {
            Some((key, occ)) => magic_keys(call@, ctx@) matches Some((raw, keys)) && key@ == keys[0]
                && occ@ == occurrence_of(f@, loc@, offset as int, text@, raw, keys),
            None => magic_keys(call@, ctx@) is None,
        },
{
    if call.receiver_present && !call.receiver_is_i18n {
        return None;
    }
    let scope = match resolve_scope(&call.kwargs) {
        Ok(scope) => scope,
        Err(_) => {
            return None;
        },
    };
    assert(args_model(call.args@).len() == call.args.len());
    if call.args.len() == 0 {
        return None;
    }
    assert(args_model(call.args@)[0] == call.args@[0]@);
    let scope_text = match &scope {
        Some(s) => Some(s.as_str()),
        None => None,
    };
    match &call.args[0] {
        ArgVal::Str(key) => match full_key(key, scope_text, ctx, call.receiver_present) {
            Some(keys) => {
                assert(texts(keys@)[0] == keys@[0]@);
                let occ = occurrence(f, loc, offset, text, key, &keys);
                Some((keys[0].clone(), occ))
            },
            None => None,
        },
        _ => None,
    }
}

/// Adds the keys of a magic comment to a scan, and says whether there were any.
pub fn handle_magic_comment(
    f: &FileFacts,
    loc: &Locator,
    ranges: &Vec<ScopeRange>,
    keys: &mut Vec<(String, Occurrence)>,
    comment: &Comment,
) -> (found: bool)
    ensures
        found_model(final(keys)@) == found_model(old(keys)@) + comment_found(
            f@,
            loc@,
            ranges_model(ranges@),
            comment@,
        ),
        found == (comment_found(f@, loc@, ranges_model(ranges@), comment@).len() > 0),
{
    let ghost start = found_model(keys@);
    assert(start + Seq::<(Seq<char>, OccurrenceV)>::empty() =~= start);
    if magic_source(&comment.text).is_none() {
        return false;
    }
    let nodes = match &comment.nested {
        Some(nodes) => nodes,
        None => {
            return false;
        },
    };
    let text = match utf8_text(&comment.text) {
        Some(text) => text,
        None => {
            return false;
        },
    };
    let ctx = resolve_comment_ctx(f, ranges, comment.offset);
    let calls = collect_translation_calls(nodes);
    let ghost model = calls_model(calls@);
    let ghost offset = comment.offset as int;
    assert(model.len() == calls.len());
    assert(ruby_model(nodes@).len() == nodes@.len());
    let mut found = false;
    let mut i: usize = 0;
    assert(found_model(keys@) =~= start + magic_found(f@, loc@, offset, text@, ctx@, model, 0));
    while i < calls.len()
        invariant
            i <= calls.len(),
            model == calls_model(calls@),
            offset == comment.offset,
            found == (magic_found(f@, loc@, offset, text@, ctx@, model, i as int).len() > 0),
            found_model(keys@) == start + magic_found(
                f@,
                loc@,
                offset,
                text@,
                ctx@,
                model,
                i as int,
            ),
        decreases calls.len() - i,
    {
        assert(model[i as int] == calls@[i as int]@);
        if let Some((key, occ)) = handle_call(f, loc, comment.offset, &text, &ctx, &calls[i]) {
            push_found(keys, key, occ);
            found = true;
        }
        i = i + 1;
        assert(found_model(keys@) =~= start + magic_found(
            f@,
            loc@,
            offset,
            text@,
            ctx@,
            model,
            i as int,
        ));
    }
    found
}

/// The keys that the first `n` comments add.
pub open spec fn comments_found(
    f: FactsV,
    loc: LocatorV,
    ranges: Seq<RangeV>,
    comments: Seq<CommentV>,
    n: int,
) -> Seq<(Seq<char>, OccurrenceV)>
    decreases n,
{
    if n <= 0 {
        Seq::empty()
    } else {
        comments_found(f, loc, ranges, comments, n - 1) + comment_found(
            f,
            loc,
            ranges,
            comments[n - 1],
        )
    }
}

/// The lines of those of the first `n` comments that add a key.
pub open spec fn covering_lines(
    f: FactsV,
    loc: LocatorV,
    ranges: Seq<RangeV>,
    comments: Seq<CommentV>,
    n: int,
) -> Seq<int>
    decreases n,
{
    if n <= 0 {
        Seq::empty()
    } else {
        let before = covering_lines(f, loc, ranges, comments, n - 1);
        if comment_found(f, loc, ranges, comments[n - 1]).len() > 0 {
            before.push(loc.place(comments[n - 1].offset).1)
        } else {
            before
        }
    }
}

/// Those of the first `n` unknown calls that no magic comment in the line above
/// speaks for.
pub open spec fn uncovered(opaque: Seq<OccurrenceV>, lines: Seq<int>, n: int) -> Seq<OccurrenceV>
    decreases n,
{
    if n <= 0 {
        Seq::empty()
    } else if lines.contains(opaque[n - 1].line_num - 1) {
        uncovered(opaque, lines, n - 1)
    } else {
        uncovered(opaque, lines, n - 1).push(opaque[n - 1])
    }
}

/// What a scan of a parsed file finds.
pub open spec fn ruby_scan(
    program: Seq<RubyV>,
    comments: Seq<CommentV>,
    f: FactsV,
    loc: LocatorV,
) -> FileScanV {
    let w = visited_all(
        program,
        program.len(),
        f,
        loc,
        WalkV { scopes: Seq::empty(), ranges: Seq::empty(), out: nothing_found() },
    );
    let n = comments.len() as int;
    let lines = covering_lines(f, loc, w.ranges, comments, n);
    FileScanV {
        keys: w.out.keys + comments_found(f, loc, w.ranges, comments, n),
        patterns: w.out.patterns,
        opaque: uncovered(w.out.opaque, lines, w.out.opaque.len() as int),
    }
}

fn line_is_covered(lines: &Vec<usize>, line_num: usize) -> (b: bool)
    ensures
        b == numbers(lines@).contains(line_num - 1),
{
    let mut i: usize = 0;
    while i < lines.len()
        invariant
            i <= lines.len(),
            forall|j: int| 0 <= j < i ==> numbers(lines@)[j] != line_num - 1,
        decreases lines.len() - i,
    {
        if line_num > 0 && lines[i] == line_num - 1 {
            assert(numbers(lines@)[i as int] == line_num - 1);
            return true;
        }
        i = i + 1;
    }
    false
}

fn drop_covered(opaque: &Vec<Occurrence>, lines: &Vec<usize>) -> (out: Vec<Occurrence>)
    ensures
        occurrences_model(out@) == uncovered(
            occurrences_model(opaque@),
            numbers(lines@),
            opaque.len() as int,
        ),
{
    let ghost model = occurrences_model(opaque@);
    let mut out: Vec<Occurrence> = Vec::new();
    let mut i: usize = 0;
    assert(occurrences_model(out@) =~= Seq::empty());
    while i < opaque.len()
        invariant
            i <= opaque.len(),
            model == occurrences_model(opaque@),
            occurrences_model(out@) == uncovered(model, numbers(lines@), i as int),
        decreases opaque.len() - i,
    {
        assert(model[i as int] == opaque@[i as int]@);
        if !line_is_covered(lines, opaque[i].line_num) {
            push_opaque(&mut out, opaque[i].clone());
        }
        i = i + 1;
    }
    out
}

/// Scans what a file or a buffer parses to. `f` is what the path says about the
/// keys in it: it belongs to the file, so that it is worked out once, however
/// many classes the file holds.
pub fn scan_buffer(
    program: &Vec<RubyNode>,
    comments: &Vec<Comment>,
    f: &FileFacts,
    loc: Locator,
) -> (out: FileScan)
    ensures
        out@ == ruby_scan(ruby_model(program@), comments_model(comments@), f@, loc@),
{
    let mut w = Walk { scopes: Vec::new(), ranges: Vec::new(), out: FileScan::default() };
    assert(scopes_model(w.scopes@) =~= Seq::empty());
    assert(ranges_model(w.ranges@) =~= Seq::empty());
    assert(ruby_model(program@).len() == program@.len());
    visit_all(program, f, &loc, &mut w);
    let ghost after = w@;
    let ghost model = comments_model(comments@);
    assert(model.len() == comments.len());
    let Walk { scopes: _, ranges, out: mut scan } = w;
    let mut lines: Vec<usize> = Vec::new();
    let mut i: usize = 0;
    assert(numbers(lines@) =~= Seq::empty());
    assert(found_model(scan.keys@) =~= after.out.keys + comments_found(
        f@,
        loc@,
        after.ranges,
        model,
        0,
    ));
    while i < comments.len()
        invariant
            i <= comments.len(),
            model == comments_model(comments@),
            after.ranges == ranges_model(ranges@),
            numbers(lines@) == covering_lines(f@, loc@, after.ranges, model, i as int),
            found_model(scan.keys@) == after.out.keys + comments_found(
                f@,
                loc@,
                after.ranges,
                model,
                i as int,
            ),
            found_model(scan.patterns@) == after.out.patterns,
            occurrences_model(scan.opaque@) == after.out.opaque,
        decreases comments.len() - i,
    {
        let comment = &comments[i];
        assert(model[i as int] == comment@);
        if handle_magic_comment(f, &loc, &ranges, &mut scan.keys, comment) {
            let ghost before = numbers(lines@);
            let line = loc.locate(comment.offset).1;
            lines.push(line);
            assert(numbers(lines@) =~= before.push(line as int));
        }
        i = i + 1;
        assert(found_model(scan.keys@) =~= after.out.keys + comments_found(
            f@,
            loc@,
            after.ranges,
            model,
            i as int,
        ));
    }
    assert(after.out.opaque.len() == scan.opaque.len());
    let opaque = drop_covered(&scan.opaque, &lines);
    FileScan { keys: scan.keys, patterns: scan.patterns, opaque }
}

/// Scans a Ruby file. `program` and `comments` are what its bytes parse to.
pub fn scan(
    bytes: &[u8],
    program: &Vec<RubyNode>,
    comments: &Vec<Comment>,
    path: &str,
    cfg: &ScanConfig,
) -> (out: FileScan)
    ensures
        out@ == ruby_scan(
            ruby_model(program@),
            comments_model(comments@),
            facts_of(path@, cfg@),
            LocatorV { bytes: bytes@, map: None },
        ),
{
    let index = LineIndex::new(bytes);
    scan_buffer(program, comments, &FileFacts::new(path, cfg), Locator::direct(&index))
}

/// Scans Ruby that is not the file itself but a buffer that was copied from it,
/// as `map` records. `program` and `comments` are what the buffer parses to.
pub fn scan_synthetic(
    program: &Vec<RubyNode>,
    comments: &Vec<Comment>,
    path: &str,
    cfg: &ScanConfig,
    index: &LineIndex,
    map: &SourceMap,
) -> (out: FileScan)
    ensures
        out@ == ruby_scan(
            ruby_model(program@),
            comments_model(comments@),
            facts_of(path@, cfg@),
            LocatorV { bytes: index@, map: Some(map@) },
        ),
{
    scan_buffer(program, comments, &FileFacts::new(path, cfg), Locator::mapped(index, map))
}

// -------------------------------------------------------------------------- laws

/// Every pattern that was found has a static part.
pub open spec fn all_specific(out: FileScanV) -> bool {
    forall|i: int| 0 <= i < out.patterns.len() ==> !all_wildcard(#[trigger] out.patterns[i].0)
}

proof fn a_call_adds_specific_patterns(
    f: FactsV,
    loc: LocatorV,
    out: FileScanV,
    call: CallSiteV,
    ctx: CallCtxV,
)
    requires
        all_specific(out),
    ensures
        all_specific(with_call(f, loc, out, call, ctx)),
{
    let after = with_call(f, loc, out, call, ctx);
    assert forall|i: int| 0 <= i < after.patterns.len() implies !all_wildcard(
        #[trigger] after.patterns[i].0,
    ) by {
        if i < out.patterns.len() {
            assert(after.patterns[i] == out.patterns[i]);
        }
    }
}

proof fn a_private_keeps_the_scopes(scopes: Seq<ScopeV>)
    ensures
        made_private(scopes).len() == scopes.len(),
    decreases scopes.len(),
{
    if scopes.len() > 0 && !(scopes.last().kind is Class) {
        a_private_keeps_the_scopes(scopes.drop_last());
    }
}

/// The walk leaves every scope that it enters: after a node it is as deep as
/// before. And it finds no pattern that would mark every key used.
pub proof fn a_walk_comes_back(node: RubyV, f: FactsV, loc: LocatorV, w: WalkV)
    ensures
        visited(node, f, loc, w).scopes.len() == w.scopes.len(),
        all_specific(w.out) ==> all_specific(visited(node, f, loc, w).out),
    decreases node, 0nat,
{
    match node {
        RubyV::Module { name, start, end, body } => {
            let inside = entered(f, w, module_scope(f, w.scopes, name), start, end);
            a_walk_over_all_comes_back(body, body.len(), f, loc, inside);
        },
        RubyV::Class { name, constant, start, end, body } => {
            let scope = class_scope(f, w.scopes, name, constant_names(constant));
            a_walk_over_all_comes_back(body, body.len(), f, loc, entered(f, w, scope, start, end));
        },
        RubyV::Def { name, start, end, body } => {
            let inside = entered(f, w, method_scope(f, w.scopes, name), start, end);
            a_walk_over_all_comes_back(body, body.len(), f, loc, inside);
        },
        RubyV::Call { method, call, body } => {
            a_private_keeps_the_scopes(w.scopes);
            if all_specific(w.out) {
                a_call_adds_specific_patterns(f, loc, w.out, call, ctx_in(f, w.scopes));
            }
            a_walk_over_all_comes_back(
                body,
                body.len(),
                f,
                loc,
                WalkV { scopes: made_private(w.scopes), ..w },
            );
            a_walk_over_all_comes_back(
                body,
                body.len(),
                f,
                loc,
                WalkV { out: with_call(f, loc, w.out, call, ctx_in(f, w.scopes)), ..w },
            );
            a_walk_over_all_comes_back(body, body.len(), f, loc, w);
        },
    }
}

/// What holds of a walk over a node holds of one over several.
pub proof fn a_walk_over_all_comes_back(
    nodes: Seq<RubyV>,
    n: nat,
    f: FactsV,
    loc: LocatorV,
    w: WalkV,
)
    ensures
        visited_all(nodes, n, f, loc, w).scopes.len() == w.scopes.len(),
        all_specific(w.out) ==> all_specific(visited_all(nodes, n, f, loc, w).out),
    decreases nodes, n,
{
    if 0 < n <= nodes.len() {
        let before = visited_all(nodes, (n - 1) as nat, f, loc, w);
        a_walk_over_all_comes_back(nodes, (n - 1) as nat, f, loc, w);
        a_walk_comes_back(nodes[n - 1], f, loc, before);
    }
}

/// No scan of a Ruby file finds a pattern that would mark every key used.
pub proof fn no_scan_marks_every_key_used(
    program: Seq<RubyV>,
    comments: Seq<CommentV>,
    f: FactsV,
    loc: LocatorV,
)
    ensures
        all_specific(ruby_scan(program, comments, f, loc)),
{
    a_walk_over_all_comes_back(
        program,
        program.len(),
        f,
        loc,
        WalkV { scopes: Seq::empty(), ranges: Seq::empty(), out: nothing_found() },
    );
}

/// A call on a receiver other than `I18n` adds nothing.
pub proof fn a_foreign_receiver_adds_nothing(
    f: FactsV,
    loc: LocatorV,
    out: FileScanV,
    call: CallSiteV,
    ctx: CallCtxV,
)
    requires
        call.receiver is Some,
        !is_i18n(call.receiver->Some_0),
    ensures
        with_call(f, loc, out, call, ctx) == out,
{
}

} // verus!
