//! Routers: they decide which file each key is written to.
use crate::config::{
    interpolate_locale, interpolated, rules_model, Config, Router, WriteRule, WriteRuleV,
};
use crate::data::load::{Leaf, LeafV, LocaleTree};
use crate::data::store::Store;
use crate::paths::{
    is_same_path, join_path, path_less, path_lt, path_lt_irreflexive, path_lt_total,
    path_lt_transitive, path_under, paths_sorted, same_path,
};
use crate::pattern::{accepts, captures_of, spans_of, Captures, Pattern, Spans};
use crate::text::{
    chars_of, concat, debug_of, debug_text, digit, is_digit, join, join_of, occurs_at, push_text,
    same_text, stands_at, texts,
};
use crate::textmap::TextMap;
use vstd::prelude::*;
use vstd::utf8::{decode_utf8, encode_utf8, encode_utf8_decode_utf8, is_char_boundary};

verus! {

/// One destination file and the keys that belong in it.
pub struct Destination {
    pub path: String,
    /// Dotted keys, without the locale.
    pub keys: Vec<String>,
}

// --------------------------------------------------------------------- captures

/// The bytes from `a` to `b` are whole characters of the key.
pub open spec fn whole_span(key: Seq<char>, a: int, b: int) -> bool {
    let bytes = encode_utf8(key);
    0 <= a <= b <= bytes.len() && is_char_boundary(bytes, a) && is_char_boundary(bytes, b)
}

/// The text of the key between two byte offsets.
pub open spec fn span_text(key: Seq<char>, a: int, b: int) -> Seq<char> {
    decode_utf8(encode_utf8(key).subrange(a, b))
}

/// The reference at `i`, such as `\1`, and the number of its group.
pub open spec fn reference_at(path: Seq<char>, i: int) -> Option<int> {
    if 0 <= i && i + 1 < path.len() && path[i] == '\\' && is_digit(path[i + 1]) {
        Some(path[i + 1] as int - '0' as int)
    } else {
        None
    }
}

/// The span of group `n`, counted from 1, where it took part.
pub open spec fn group_span(caps: Spans, n: int) -> Option<(int, int)> {
    if 1 <= n <= caps.len() {
        caps[n - 1]
    } else {
        None
    }
}

/// Every group that the path refers to stands for whole characters.
pub open spec fn cuts_no_character(path: Seq<char>, key: Seq<char>, caps: Spans) -> bool {
    forall|i: int| #[trigger]
        reference_at(path, i) matches Some(n) ==> (group_span(caps, n) matches Some((a, b))
            ==> whole_span(key, a, b))
}

/// The path from `i` on with each reference replaced by what its group stands
/// for, which is nothing for a group that took no part.
pub open spec fn substituted_from(path: Seq<char>, i: int, key: Seq<char>, caps: Spans) -> Seq<char>
    decreases path.len() - i,
{
    if i < 0 || i >= path.len() {
        Seq::empty()
    } else {
        match reference_at(path, i) {
            Some(n) => match group_span(caps, n) {
                Some((a, b)) => span_text(key, a, b) + substituted_from(path, i + 2, key, caps),
                None => substituted_from(path, i + 2, key, caps),
            },
            None => seq![path[i]] + substituted_from(path, i + 1, key, caps),
        }
    }
}

/// The path with its references replaced.
pub open spec fn substituted(path: Seq<char>, key: Seq<char>, caps: Spans) -> Seq<char> {
    substituted_from(path, 0, key, caps)
}

fn slice_bytes<'a>(key: &'a str, a: usize, b: usize) -> (r: &'a str)
    requires
        whole_span(key@, a as int, b as int),
    ensures
        r@ == span_text(key@, a as int, b as int),
{
    let ghost bytes = encode_utf8(key@);
    let (head, _) = key.split_at(b);
    assert(encode_utf8(head@) =~= bytes.subrange(0, b as int));
    proof {
        boundary_in_prefix(bytes, key@, a as int, b as int);
    }
    let (_, tail) = head.split_at(a);
    proof {
        encode_utf8_decode_utf8(tail@);
        assert(encode_utf8(tail@) =~= bytes.subrange(a as int, b as int));
    }
    tail
}

proof fn boundary_in_prefix(bytes: Seq<u8>, key: Seq<char>, a: int, b: int)
    requires
        bytes == encode_utf8(key),
        whole_span(key, a, b),
    ensures
        is_char_boundary(bytes.subrange(0, b), a),
{
    let head = bytes.subrange(0, b);
    vstd::utf8::encode_utf8_valid_utf8(key);
    vstd::utf8::valid_utf8_split(bytes, b);
    if a < b {
        assert(head[a] == bytes[a]);
        vstd::utf8::is_char_boundary_iff_not_is_continuation_byte(bytes, a);
        vstd::utf8::is_char_boundary_iff_not_is_continuation_byte(head, a);
    } else {
        vstd::utf8::is_char_boundary_start_end_of_seq(head);
    }
}

/// Replaces `\1`..`\9` with the matching `{...}` group of the key pattern.
pub fn substitute_captures(path: &str, key: &str, caps: &Captures) -> (out: String)
    requires
        cuts_no_character(path@, key@, spans_of(caps@)),
    ensures
        out@ == substituted(path@, key@, spans_of(caps@)),
{
    let v = chars_of(path);
    let ghost spans = spans_of(caps@);
    let mut out = String::new();
    let mut i: usize = 0;
    assert(out@ + substituted_from(v@, 0, key@, spans) =~= substituted(path@, key@, spans));
    while i < v.len()
        invariant
            v@ == path@,
            spans == spans_of(caps@),
            cuts_no_character(path@, key@, spans),
            i <= v.len(),
            out@ + substituted_from(v@, i as int, key@, spans) == substituted(path@, key@, spans),
        decreases v.len() - i,
    {
        let ghost before = out@;
        let ghost start = i as int;
        if v[i] == '\\' && i + 1 < v.len() && digit(v[i + 1]) {
            let n: usize = (v[i + 1] as u32 - 48) as usize;
            assert(reference_at(v@, start) == Some(n as int));
            if n >= 1 && n <= caps.len() {
                assert(spans[n - 1] == match caps@[n - 1] {
                    Some((a, b)) => Some((a as int, b as int)),
                    None => None,
                });
                if let Some((a, b)) = caps[n - 1] {
                    assert(group_span(spans, n as int) == Some((a as int, b as int)));
                    out.append(slice_bytes(key, a, b));
                }
            }
            i = i + 2;
            proof {
                let tail = substituted_from(v@, i as int, key@, spans);
                match group_span(spans, n as int) {
                    Some((a, b)) => {
                        assert(out@ + tail =~= before + (span_text(key@, a, b) + tail));
                    },
                    None => {},
                }
            }
        } else {
            assert(reference_at(v@, start) is None);
            out.push(v[i]);
            i = i + 1;
            assert(out@ + substituted_from(v@, i as int, key@, spans) =~= before + (seq![v@[start]]
                + substituted_from(v@, i as int, key@, spans)));
        }
    }
    out
}

// ------------------------------------------------------------ the pattern router

/// The rules of a router: a key pattern and a path each. A bare path stands
/// for every key.
pub open spec fn rules_of(write: Seq<WriteRuleV>) -> Seq<(Seq<char>, Seq<char>)> {
    Seq::new(
        write.len(),
        |i: int|
            (
                match write[i].pattern {
                    Some(p) => p,
                    None => "*"@,
                },
                write[i].path,
            ),
    )
}

/// A rule as messages show it.
pub open spec fn rule_source(rule: WriteRuleV) -> Seq<char> {
    match rule.pattern {
        Some(p) => "["@ + debug_of(p) + ", "@ + debug_of(rule.path) + "]"@,
        None => debug_of(rule.path),
    }
}

/// The key patterns of the write rules.
pub open spec fn rule_sources(write: Seq<WriteRuleV>) -> Seq<Seq<char>> {
    Seq::new(write.len(), |i: int| rule_source(write[i]))
}

/// The first rule from `from` on that matches the key.
pub open spec fn rule_for(rules: Seq<(Seq<char>, Seq<char>)>, key: Seq<char>, from: int) -> Option<
    int,
>
    decreases rules.len() - from,
{
    if from < 0 || from >= rules.len() {
        None
    } else if accepts(rules[from].0, key) {
        Some(from)
    } else {
        rule_for(rules, key, from + 1)
    }
}

/// The message for a key that no rule matches.
pub open spec fn unroutable(key: Seq<char>, sources: Seq<Seq<char>>) -> Seq<char> {
    "cannot route key `"@ + key + "`. `data.write` rules are ["@ + join_of(sources, ", "@) + "]"@
}

/// Where the rules send a key: the locale is filled in first, the groups
/// second.
pub open spec fn pattern_route(
    write: Seq<WriteRuleV>,
    locale: Seq<char>,
    key: Seq<char>,
) -> Result<Seq<char>, Seq<char>> {
    let rules = rules_of(write);
    match rule_for(rules, key, 0) {
        Some(i) => Ok(
            substituted(
                interpolated(rules[i].1, locale),
                key,
                captures_of(rules[i].0, key)->Some_0,
            ),
        ),
        None => Err(unroutable(key, rule_sources(write))),
    }
}

/// The groups that fill in the path of the key's rule stand for whole
/// characters.
pub open spec fn routes_cleanly(write: Seq<WriteRuleV>, locale: Seq<char>, key: Seq<char>) -> bool {
    let rules = rules_of(write);
    rule_for(rules, key, 0) matches Some(i) ==> cuts_no_character(
        interpolated(rules[i].1, locale),
        key,
        captures_of(rules[i].0, key)->Some_0,
    )
}

/// The compiled `data.write` rules. A bare path entry is the same as
/// `['*', path]`. Its view is the list of rules.
pub struct PatternRouter {
    routes: Vec<(Pattern, String)>,
    sources: Vec<String>,
    write: Ghost<Seq<WriteRuleV>>,
}

impl View for PatternRouter {
    type V = Seq<WriteRuleV>;

    closed spec fn view(&self) -> Seq<WriteRuleV> {
        self.write@
    }
}

fn source_text(rule: &WriteRule) -> (out: String)
    ensures
        out@ == rule_source(rule@),
{
    match &rule.pattern {
        Some(p) => {
            let mut out = concat("[", &debug_text(p));
            out.append(", ");
            out.append(&debug_text(&rule.path));
            out.append("]");
            out
        },
        None => debug_text(&rule.path),
    }
}

impl PatternRouter {
    #[verifier::type_invariant]
    spec fn wf(&self) -> bool {
        &&& texts(self.sources@) == rule_sources(self.write@)
        &&& self.routes.len() == self.write@.len()
        &&& forall|i: int|
            0 <= i < self.routes.len() ==> (#[trigger] self.routes@[i]).0@ == rules_of(
                self.write@,
            )[i].0 && self.routes@[i].1@ == rules_of(self.write@)[i].1
    }

    /// Compiles the `data.write` rules of the configuration.
    pub fn new(cfg: &Config) -> (router: PatternRouter)
        ensures
            router@ == cfg@.data.write,
    {
        let rules = &cfg.data.write;
        let ghost write = rules_model(rules@);
        let mut routes: Vec<(Pattern, String)> = Vec::new();
        let mut sources: Vec<String> = Vec::new();
        let mut i: usize = 0;
        while i < rules.len()
            invariant
                i <= rules.len(),
                write == rules_model(rules@),
                routes.len() == i,
                sources.len() == i,
                forall|j: int|
                    0 <= j < i ==> (#[trigger] routes@[j]).0@ == rules_of(write)[j].0
                        && routes@[j].1@ == rules_of(write)[j].1,
                forall|j: int| 0 <= j < i ==> #[trigger] sources@[j]@ == rule_source(write[j]),
            decreases rules.len() - i,
        {
            let rule = &rules[i];
            assert(write[i as int] == rule@);
            let pattern = match &rule.pattern {
                Some(p) => Pattern::compile(p),
                None => Pattern::compile("*"),
            };
            routes.push((pattern, rule.path.clone()));
            sources.push(source_text(rule));
            i = i + 1;
        }
        assert(texts(sources@) =~= rule_sources(write));
        PatternRouter { routes, sources, write: Ghost(write) }
    }

    /// The destination for one key, with `%{locale}` and `\1`..`\9` filled in.
    /// A key that no rule matches is an error that lists the rules.
    pub fn route_key(&self, locale: &str, key: &str) -> (r: Result<String, String>)
        requires
            routes_cleanly(self@, locale@, key@),
        ensures
            match r {
                Ok(path) => pattern_route(self@, locale@, key@) == Ok::<Seq<char>, Seq<char>>(
                    path@,
                ),
                Err(e) => pattern_route(self@, locale@, key@) == Err::<Seq<char>, Seq<char>>(e@),
            },
    {
        proof {
            use_type_invariant(self);
        }
        let ghost rules = rules_of(self@);
        let mut i: usize = 0;
        while i < self.routes.len()
            invariant
                i <= self.routes.len(),
                self.wf(),
                rules == rules_of(self@),
                routes_cleanly(self@, locale@, key@),
                rule_for(rules, key@, 0) == rule_for(rules, key@, i as int),
            decreases self.routes.len() - i,
        {
            let (pattern, path) = &self.routes[i];
            assert(self.routes@[i as int].0@ == rules[i as int].0);
            if let Some(caps) = pattern.captures(key) {
                let filled = interpolate_locale(path, locale);
                return Ok(substitute_captures(&filled, key, &caps));
            }
            i = i + 1;
        }
        let mut message = concat("cannot route key `", key);
        message.append("`. `data.write` rules are [");
        message.append(&join(&self.sources, ", "));
        message.append("]");
        Err(message)
    }
}

// --------------------------------------------------------------- locale in paths

/// The locale stands at `i` as a part of its own.
pub open spec fn locale_at(path: Seq<char>, i: int, from: Seq<char>) -> bool {
    let end = i + from.len();
    &&& i == 0 || path[i - 1] == '/' || path[i - 1] == '.' || path[i - 1] == '-'
    &&& occurs_at(path, from, i)
    &&& end < path.len() && (path[end] == '/' || path[end] == '.')
}

/// The path from `i` on with the locale replaced wherever it is a part of its
/// own.
pub open spec fn replaced_from(
    path: Seq<char>,
    i: int,
    from: Seq<char>,
    to: Seq<char>,
) -> Seq<char>
    decreases path.len() - i,
{
    if i < 0 || i >= path.len() {
        Seq::empty()
    } else if locale_at(path, i, from) && from.len() > 0 {
        to + replaced_from(path, i + from.len(), from, to)
    } else {
        seq![path[i]] + replaced_from(path, i + 1, from, to)
    }
}

/// The path with the locale replaced.
pub open spec fn replaced(path: Seq<char>, from: Seq<char>, to: Seq<char>) -> Seq<char> {
    replaced_from(path, 0, from, to)
}

/// Rewrites the locale part of a path, everywhere: `base.de.yml` becomes
/// `base.en.yml`. What precedes the locale must be the start, `/`, `.` or `-`,
/// what follows it `/` or `.`.
pub fn replace_locale(path: &str, from: &str, to: &str) -> (out: String)
    ensures
        out@ == replaced(path@, from@, to@),
{
    let v = chars_of(path);
    let w = chars_of(from);
    let mut out = String::new();
    let mut i: usize = 0;
    assert(out@ + replaced_from(v@, 0, from@, to@) =~= replaced(path@, from@, to@));
    while i < v.len()
        invariant
            v@ == path@,
            w@ == from@,
            i <= v.len(),
            out@ + replaced_from(v@, i as int, from@, to@) == replaced(path@, from@, to@),
        decreases v.len() - i,
    {
        let ghost before = out@;
        let ghost start = i as int;
        let before_ok = i == 0 || v[i - 1] == '/' || v[i - 1] == '.' || v[i - 1] == '-';
        if w.len() > 0 && before_ok && stands_at(&v, &w, i) && i + w.len() < v.len() && (v[i
            + w.len()] == '/' || v[i + w.len()] == '.') {
            out.append(to);
            i = i + w.len();
            assert(out@ + replaced_from(v@, i as int, from@, to@) =~= before + (to@
                + replaced_from(v@, i as int, from@, to@)));
        } else {
            out.push(v[i]);
            i = i + 1;
            assert(out@ + replaced_from(v@, i as int, from@, to@) =~= before + (seq![v@[start]]
                + replaced_from(v@, i as int, from@, to@)));
        }
    }
    out
}

// ------------------------------------------------------- the conservative router

/// The leaf of a key in a locale.
pub open spec fn leaf_of(
    trees: Map<Seq<char>, LocaleTree>,
    locale: Seq<char>,
    key: Seq<char>,
) -> Option<LeafV> {
    if trees.contains_key(locale) {
        trees[locale].found(key)
    } else {
        None
    }
}

/// The first of the locales from `from` on, other than `locale`, that has the
/// key.
pub open spec fn neighbour(
    trees: Map<Seq<char>, LocaleTree>,
    locales: Seq<Seq<char>>,
    locale: Seq<char>,
    key: Seq<char>,
    from: int,
) -> Option<int>
    decreases locales.len() - from,
{
    if from < 0 || from >= locales.len() {
        None
    } else if locales[from] != locale && leaf_of(trees, locales[from], key) is Some {
        Some(from)
    } else {
        neighbour(trees, locales, locale, key, from + 1)
    }
}

/// Where a key is kept: in its own file, or beside the file of another locale.
pub open spec fn kept_in(
    trees: Map<Seq<char>, LocaleTree>,
    locales: Seq<Seq<char>>,
    locale: Seq<char>,
    key: Seq<char>,
) -> Option<Seq<char>> {
    match leaf_of(trees, locale, key) {
        Some(leaf) => Some(leaf.path),
        None => match neighbour(trees, locales, locale, key, 0) {
            Some(i) => Some(
                replaced(leaf_of(trees, locales[i], key)->Some_0.path, locales[i], locale),
            ),
            None => None,
        },
    }
}

/// The conservative router: a key stays in the file it came from. A new key
/// goes where the pattern router sends it.
pub struct ConservativeRouter<'a> {
    pub store: &'a Store,
    pub fallback: &'a PatternRouter,
}

fn find_leaf<'a>(store: &'a Store, locale: &str, key: &str) -> (r: Option<&'a Leaf>)
    requires
        store.wf(),
    ensures
        match r {
            Some(leaf) => leaf_of(store.trees@, locale@, key@) == Some(leaf@),
            None => leaf_of(store.trees@, locale@, key@) is None,
        },
{
    match store.tree(locale) {
        Some(tree) => tree.get(key),
        None => None,
    }
}

impl<'a> ConservativeRouter<'a> {
    /// A router over the store that falls back to compiled rules.
    pub fn new(fallback: &'a PatternRouter, store: &'a Store) -> (r: ConservativeRouter<'a>)
        ensures
            r.store == store,
            r.fallback == fallback,
    {
        ConservativeRouter { store, fallback }
    }

    /// The file of a key. A key that no locale has goes to the pattern router,
    /// and is an error when no `data.write` rule matches it.
    pub fn route_key(&self, locale: &str, key: &str) -> (r: Result<String, String>)
        requires
            self.store.wf(),
            kept_in(self.store.trees@, texts(self.store.locales@), locale@, key@) is None
                ==> routes_cleanly(self.fallback@, locale@, key@),
        ensures
            match kept_in(self.store.trees@, texts(self.store.locales@), locale@, key@) {
                Some(path) => r matches Ok(p) && p@ == path,
                None => match r {
                    Ok(p) => pattern_route(self.fallback@, locale@, key@) == Ok::<
                        Seq<char>,
                        Seq<char>,
                    >(p@),
                    Err(e) => pattern_route(self.fallback@, locale@, key@) == Err::<
                        Seq<char>,
                        Seq<char>,
                    >(e@),
                },
            },
    {
        if let Some(leaf) = find_leaf(self.store, locale, key) {
            return Ok(leaf.path.clone());
        }
        let ghost trees = self.store.trees@;
        let ghost names = texts(self.store.locales@);
        let mut i: usize = 0;
        while i < self.store.locales.len()
            invariant
                i <= self.store.locales.len(),
                self.store.wf(),
                trees == self.store.trees@,
                names == texts(self.store.locales@),
                leaf_of(trees, locale@, key@) is None,
                neighbour(trees, names, locale@, key@, 0) == neighbour(
                    trees,
                    names,
                    locale@,
                    key@,
                    i as int,
                ),
            decreases self.store.locales.len() - i,
        {
            let other = &self.store.locales[i];
            assert(names[i as int] == other@);
            if !same_text(other, locale) {
                if let Some(leaf) = find_leaf(self.store, other, key) {
                    return Ok(replace_locale(&leaf.path, other, locale));
                }
            }
            i = i + 1;
        }
        self.fallback.route_key(locale, key)
    }
}

// --------------------------------------------------------------- routing a locale

/// What decides where the keys of a locale go.
pub struct RouteV {
    pub write: Seq<WriteRuleV>,
    pub by_pattern: bool,
    pub trees: Map<Seq<char>, LocaleTree>,
    pub locales: Seq<Seq<char>>,
    pub locale: Seq<char>,
    pub root: Seq<char>,
}

impl RouteV {
    /// Where a key is kept, where the router keeps keys in place.
    pub open spec fn kept(self, key: Seq<char>) -> Option<Seq<char>> {
        if self.by_pattern {
            None
        } else {
            kept_in(self.trees, self.locales, self.locale, key)
        }
    }

    /// The file of a key, behind the root of the project.
    pub open spec fn destination(self, key: Seq<char>) -> Result<Seq<char>, Seq<char>> {
        match self.kept(key) {
            Some(path) => Ok(path_under(self.root, path)),
            None => match pattern_route(self.write, self.locale, key) {
                Ok(path) => Ok(path_under(self.root, path)),
                Err(e) => Err(e),
            },
        }
    }

    /// The groups that fill in the path of the key stand for whole characters.
    pub open spec fn clean(self, key: Seq<char>) -> bool {
        self.kept(key) is None ==> routes_cleanly(self.write, self.locale, key)
    }
}

/// What decides where the keys of `locale` go. `force_pattern` sends every key
/// where `data.write` says it belongs.
pub open spec fn routing(cfg: &Config, store: &Store, locale: Seq<char>, force_pattern: bool) -> RouteV {
    RouteV {
        write: cfg@.data.write,
        by_pattern: force_pattern || cfg@.data.router == Router::Pattern,
        trees: store.trees@,
        locales: texts(store.locales@),
        locale,
        root: cfg.root@,
    }
}

/// The groups that fill in the path of every key of the locale stand for whole
/// characters.
pub open spec fn routable(
    cfg: &Config,
    store: &Store,
    locale: Seq<char>,
    force_pattern: bool,
) -> bool {
    store.trees@.contains_key(locale) ==> forall|i: int|
        0 <= i < store.trees@[locale].keys().len() ==> routing(
            cfg,
            store,
            locale,
            force_pattern,
        ).clean(#[trigger] store.trees@[locale].keys()[i])
}

/// The first error among the first `n` keys that are not skipped.
pub open spec fn route_error(
    r: RouteV,
    keys: Seq<Seq<char>>,
    skip: Map<Seq<char>, ()>,
    n: int,
) -> Option<Seq<char>>
    decreases n,
{
    if n <= 0 {
        None
    } else {
        match route_error(r, keys, skip, n - 1) {
            Some(e) => Some(e),
            None => if skip.contains_key(keys[n - 1]) {
                None
            } else {
                match r.destination(keys[n - 1]) {
                    Ok(_) => None,
                    Err(e) => Some(e),
                }
            },
        }
    }
}

/// The keys among the first `n`, in their order, that are not skipped and go to
/// the file.
pub open spec fn keys_sent(
    r: RouteV,
    keys: Seq<Seq<char>>,
    skip: Map<Seq<char>, ()>,
    n: int,
    path: Seq<char>,
) -> Seq<Seq<char>>
    decreases n,
{
    if n <= 0 {
        Seq::empty()
    } else if sent_to(r, keys[n - 1], skip, path) {
        keys_sent(r, keys, skip, n - 1, path).push(keys[n - 1])
    } else {
        keys_sent(r, keys, skip, n - 1, path)
    }
}

/// The key is not skipped and goes to the file.
pub open spec fn sent_to(
    r: RouteV,
    key: Seq<char>,
    skip: Map<Seq<char>, ()>,
    path: Seq<char>,
) -> bool {
    !skip.contains_key(key) && (r.destination(key) matches Ok(p) && same_path(p, path))
}

/// The paths of destinations.
pub open spec fn destination_paths(v: Seq<Destination>) -> Seq<Seq<char>> {
    Seq::new(v.len(), |i: int| v[i].path@)
}

/// The destinations of the first `n` keys: sorted by path, each with all of its
/// keys in their order, and every key in one of them. The path is spelled as
/// for the first key.
pub open spec fn grouped(
    v: Seq<Destination>,
    r: RouteV,
    keys: Seq<Seq<char>>,
    skip: Map<Seq<char>, ()>,
    n: int,
) -> bool {
    &&& paths_sorted(destination_paths(v))
    &&& forall|i: int|
        0 <= i < v.len() ==> {
            let d = #[trigger] v[i];
            &&& texts(d.keys@) == keys_sent(r, keys, skip, n, d.path@)
            &&& d.keys.len() > 0
            &&& r.destination(d.keys@[0]@) == Ok::<Seq<char>, Seq<char>>(d.path@)
        }
    &&& forall|j: int|
        0 <= j < n && !skip.contains_key(#[trigger] keys[j]) ==> (r.destination(
            keys[j],
        ) matches Ok(p) && has_path(v, p))
}

/// One of the destinations has the path.
pub open spec fn has_path(v: Seq<Destination>, path: Seq<char>) -> bool {
    exists|i: int| 0 <= i < v.len() && same_path(path, (#[trigger] v[i]).path@)
}

proof fn route_error_stays(
    r: RouteV,
    keys: Seq<Seq<char>>,
    skip: Map<Seq<char>, ()>,
    n: int,
    m: int,
)
    requires
        n <= m,
        route_error(r, keys, skip, n) is Some,
    ensures
        route_error(r, keys, skip, m) == route_error(r, keys, skip, n),
    decreases m,
{
    if n < m {
        route_error_stays(r, keys, skip, n, m - 1);
    }
}

/// Two spellings of a path get the same keys.
proof fn keys_sent_to_same(
    r: RouteV,
    keys: Seq<Seq<char>>,
    skip: Map<Seq<char>, ()>,
    n: int,
    a: Seq<char>,
    b: Seq<char>,
)
    requires
        same_path(a, b),
    ensures
        keys_sent(r, keys, skip, n, a) == keys_sent(r, keys, skip, n, b),
    decreases n,
{
    if n > 0 {
        keys_sent_to_same(r, keys, skip, n - 1, a, b);
    }
}

/// A path that no destination has has got no key.
proof fn nothing_sent(
    v: Seq<Destination>,
    r: RouteV,
    keys: Seq<Seq<char>>,
    skip: Map<Seq<char>, ()>,
    n: int,
    k: int,
    path: Seq<char>,
)
    requires
        grouped(v, r, keys, skip, n),
        k <= n,
        !has_path(v, path),
    ensures
        keys_sent(r, keys, skip, k, path) == Seq::<Seq<char>>::empty(),
    decreases k,
{
    if k > 0 {
        nothing_sent(v, r, keys, skip, n, k - 1, path);
        if sent_to(r, keys[k - 1], skip, path) {
            let p = r.destination(keys[k - 1])->Ok_0;
            assert(has_path(v, p));
            let i = choose|i: int| 0 <= i < v.len() && same_path(p, (#[trigger] v[i]).path@);
            assert(same_path(path, v[i].path@));
        }
    }
}

/// Adds a key to the destination of its path.
fn add_key(
    out: &mut Vec<Destination>,
    path: String,
    key: &str,
    Ghost(r): Ghost<RouteV>,
    Ghost(keys): Ghost<Seq<Seq<char>>>,
    Ghost(skip): Ghost<Map<Seq<char>, ()>>,
    Ghost(n): Ghost<int>,
)
    requires
        0 <= n < keys.len(),
        keys[n] == key@,
        !skip.contains_key(key@),
        r.destination(key@) == Ok::<Seq<char>, Seq<char>>(path@),
        grouped(old(out)@, r, keys, skip, n),
    ensures
        grouped(final(out)@, r, keys, skip, n + 1),
{
    let ghost v = out@;
    let ghost target = path@;
    let mut k: usize = 0;
    while k < out.len() && !is_same_path(&out[k].path, &path)
        invariant
            k <= out.len(),
            out@ == v,
            target == path@,
            forall|i: int| 0 <= i < k ==> !same_path((#[trigger] v[i]).path@, target),
        decreases out.len() - k,
    {
        k = k + 1;
    }
    if k < out.len() {
        let Destination { path: own, keys: mut listed } = out.remove(k);
        let ghost listed0 = texts(listed@);
        push_text(&mut listed, key.to_owned());
        out.insert(k, Destination { path: own, keys: listed });
        proof {
            keys_sent_to_same(r, keys, skip, n, v[k as int].path@, target);
            assert(out@ =~= v.update(k as int, out@[k as int]));
            assert(destination_paths(out@) =~= destination_paths(v));
            assert forall|i: int| 0 <= i < out@.len() implies {
                let d = #[trigger] out@[i];
                &&& texts(d.keys@) == keys_sent(r, keys, skip, n + 1, d.path@)
                &&& d.keys.len() > 0
                &&& r.destination(d.keys@[0]@) == Ok::<Seq<char>, Seq<char>>(d.path@)
            } by {
                assert(v[i].keys.len() > 0);
                if i == k {
                    assert(listed@[0] == v[i].keys@[0]);
                } else {
                    if same_path(target, v[i].path@) {
                        path_lt_irreflexive(v[k as int].path@, v[i].path@);
                        path_lt_irreflexive(v[i].path@, v[k as int].path@);
                        let ps = destination_paths(v);
                        if i < k {
                            assert(path_lt(ps[i], ps[k as int]));
                        } else {
                            assert(path_lt(ps[k as int], ps[i]));
                        }
                    }
                }
            }
            assert forall|j: int|
                0 <= j < n + 1 && !skip.contains_key(#[trigger] keys[j]) implies (r.destination(
                keys[j],
            ) matches Ok(p) && has_path(out@, p)) by {
                let p = r.destination(keys[j])->Ok_0;
                if j < n {
                    assert(has_path(v, p));
                    let i = choose|i: int|
                        0 <= i < v.len() && same_path(p, (#[trigger] v[i]).path@);
                    assert(same_path(p, out@[i].path@));
                } else {
                    assert(same_path(p, out@[k as int].path@));
                }
            }
        }
        return ;
    }
    assert(!has_path(v, target)) by {
        if has_path(v, target) {
            let i = choose|i: int| 0 <= i < v.len() && same_path(target, (#[trigger] v[i]).path@);
            assert(same_path(v[i].path@, target));
        }
    }
    let mut at: usize = 0;
    while at < out.len() && path_less(&out[at].path, &path)
        invariant
            at <= out.len(),
            out@ == v,
            target == path@,
            forall|i: int| 0 <= i < at ==> path_lt((#[trigger] v[i]).path@, target),
        decreases out.len() - at,
    {
        at = at + 1;
    }
    let mut listed: Vec<String> = Vec::new();
    listed.push(key.to_owned());
    out.insert(at, Destination { path, keys: listed });
    proof {
        let ps = destination_paths(v);
        let qs = destination_paths(out@);
        assert(qs =~= ps.insert(at as int, target));
        assert forall|i: int| at <= i < v.len() implies path_lt(target, #[trigger] ps[i]) by {
            path_lt_total(target, v[at as int].path@);
            assert(!same_path(v[at as int].path@, target));
            if i > at {
                assert(path_lt(ps[at as int], ps[i]));
                path_lt_transitive(target, ps[at as int], ps[i]);
            }
        }
        assert forall|a: int, b: int| 0 <= a < b < qs.len() implies path_lt(
            #[trigger] qs[a],
            #[trigger] qs[b],
        ) by {
            if a < at && at < b {
                assert(path_lt(v[a].path@, target));
                assert(path_lt(target, ps[b - 1]));
                path_lt_transitive(ps[a], target, ps[b - 1]);
            } else if a < at && b < at {
                assert(path_lt(ps[a], ps[b]));
            } else if a < at {
                assert(path_lt(v[a].path@, target));
            } else if a == at {
                assert(path_lt(target, ps[b - 1]));
            } else {
                assert(path_lt(ps[a - 1], ps[b - 1]));
            }
        }
        nothing_sent(v, r, keys, skip, n, n, target);
        assert(texts(listed@) =~= Seq::<Seq<char>>::empty().push(key@));
        assert forall|i: int| 0 <= i < out@.len() implies {
            let d = #[trigger] out@[i];
            &&& texts(d.keys@) == keys_sent(r, keys, skip, n + 1, d.path@)
            &&& d.keys.len() > 0
            &&& r.destination(d.keys@[0]@) == Ok::<Seq<char>, Seq<char>>(d.path@)
        } by {
            if i != at {
                let o = if i < at {
                    i
                } else {
                    i - 1
                };
                assert(out@[i] == v[o]);
                assert(v[o].keys.len() > 0);
                if same_path(target, v[o].path@) {
                    assert(has_path(v, target));
                }
            }
        }
        assert forall|j: int|
            0 <= j < n + 1 && !skip.contains_key(#[trigger] keys[j]) implies (r.destination(
            keys[j],
        ) matches Ok(p) && has_path(out@, p)) by {
            let p = r.destination(keys[j])->Ok_0;
            if j < n {
                assert(has_path(v, p));
                let i = choose|i: int| 0 <= i < v.len() && same_path(p, (#[trigger] v[i]).path@);
                if i < at {
                    assert(same_path(p, out@[i].path@));
                } else {
                    assert(same_path(p, out@[i + 1].path@));
                }
            } else {
                assert(same_path(p, out@[at as int].path@));
            }
        }
    }
}

/// The message for a locale without data.
pub open spec fn no_locale_message(locale: Seq<char>) -> Seq<char> {
    "locale `"@ + locale + "` has no data"@
}

/// Groups every key of one locale by the file it is written to.
pub fn route(cfg: &Config, store: &Store, locale: &str, force_pattern: bool) -> (r: Result<
    Vec<Destination>,
    String,
>)
    requires
        store.wf(),
        routable(cfg, store, locale@, force_pattern),
    ensures
        routed(r, cfg, store, locale@, force_pattern, Map::empty()),
{
    route_filtered(cfg, store, locale, force_pattern, &TextMap::new())
}

/// What routing the keys that are not skipped gives: the destinations, or the
/// first error.
pub open spec fn routed(
    result: Result<Vec<Destination>, String>,
    cfg: &Config,
    store: &Store,
    locale: Seq<char>,
    force_pattern: bool,
    skip: Map<Seq<char>, ()>,
) -> bool {
    let r = routing(cfg, store, locale, force_pattern);
    if !store.trees@.contains_key(locale) {
        result matches Err(e) && e@ == no_locale_message(locale)
    } else {
        let keys = store.trees@[locale].keys();
        match result {
            Ok(v) => route_error(r, keys, skip, keys.len() as int) is None && grouped(
                v@,
                r,
                keys,
                skip,
                keys.len() as int,
            ),
            Err(e) => route_error(r, keys, skip, keys.len() as int) == Some(e@),
        }
    }
}

/// Groups the keys of one locale that are not in `skip` by destination file.
pub fn route_filtered(
    cfg: &Config,
    store: &Store,
    locale: &str,
    force_pattern: bool,
    skip: &TextMap<()>,
) -> (r: Result<Vec<Destination>, String>)
    requires
        store.wf(),
        routable(cfg, store, locale@, force_pattern),
    ensures
        routed(r, cfg, store, locale@, force_pattern, skip@),
{
    let pattern = PatternRouter::new(cfg);
    let by_pattern = force_pattern || match cfg.data.router {
        Router::Pattern => true,
        Router::Conservative => false,
    };
    let conservative = ConservativeRouter::new(&pattern, store);
    let ghost how = routing(cfg, store, locale@, force_pattern);
    let tree = match store.tree(locale) {
        Some(tree) => tree,
        None => {
            return Err(concat(&concat("locale `", locale), "` has no data"));
        },
    };
    let ghost keys = tree.keys();
    let mut out: Vec<Destination> = Vec::new();
    let mut i: usize = 0;
    while i < tree.leaves.len()
        invariant
            i <= tree.leaves.len(),
            keys == tree.keys(),
            keys.len() == tree.leaves.len(),
            store.wf(),
            store.trees@.contains_key(locale@),
            *tree == store.trees@[locale@],
            how == routing(cfg, store, locale@, force_pattern),
            by_pattern == how.by_pattern,
            conservative.store == store,
            conservative.fallback@ == cfg@.data.write,
            pattern@ == cfg@.data.write,
            forall|i: int| 0 <= i < keys.len() ==> how.clean(#[trigger] keys[i]),
            route_error(how, keys, skip@, i as int) is None,
            grouped(out@, how, keys, skip@, i as int),
        decreases tree.leaves.len() - i,
    {
        let key = &tree.leaves[i].key;
        assert(keys[i as int] == key@);
        assert(how.clean(keys[i as int]));
        if !skip.contains(key) {
            let found = if by_pattern {
                pattern.route_key(locale, key)
            } else {
                conservative.route_key(locale, key)
            };
            match found {
                Ok(path) => {
                    add_key(
                        &mut out,
                        join_path(&cfg.root, &path),
                        key,
                        Ghost(how),
                        Ghost(keys),
                        Ghost(skip@),
                        Ghost(i as int),
                    );
                },
                Err(e) => {
                    proof {
                        assert(route_error(how, keys, skip@, i + 1) == Some(e@));
                        route_error_stays(how, keys, skip@, i + 1, keys.len() as int);
                    }
                    return Err(e);
                },
            }
        } else {
            proof {
                assert forall|d: int| 0 <= d < out@.len() implies texts(
                    (#[trigger] out@[d]).keys@,
                ) == keys_sent(how, keys, skip@, i + 1, out@[d].path@) by {}
            }
        }
        i = i + 1;
    }
    Ok(out)
}

/// The list has the path.
pub open spec fn lists_path(v: Seq<Seq<char>>, path: Seq<char>) -> bool {
    exists|k: int| 0 <= k < v.len() && same_path(path, #[trigger] v[k])
}

/// One of the leaves comes from the file.
pub open spec fn holds_leaf(data: Seq<LeafV>, path: Seq<char>) -> bool {
    exists|i: int| 0 <= i < data.len() && (#[trigger] data[i]).path == path
}

/// A list of paths, sorted, that holds the file of every leaf and no other.
pub open spec fn origins(v: Seq<Seq<char>>, data: Seq<LeafV>) -> bool {
    &&& paths_sorted(v)
    &&& forall|i: int| 0 <= i < data.len() ==> lists_path(v, (#[trigger] data[i]).path)
    &&& forall|k: int| 0 <= k < v.len() ==> holds_leaf(data, #[trigger] v[k])
}

/// Adds a path to a sorted list, unless the list has it.
pub(crate) fn add_path(out: &mut Vec<String>, path: &str)
    requires
        paths_sorted(texts(old(out)@)),
    ensures
        paths_sorted(texts(final(out)@)),
        lists_path(texts(final(out)@), path@),
        forall|p: Seq<char>| #[trigger]
            lists_path(texts(old(out)@), p) ==> lists_path(texts(final(out)@), p),
        forall|k: int|
            0 <= k < final(out).len() ==> #[trigger] texts(final(out)@)[k] == path@ || texts(
                old(out)@,
            ).contains(texts(final(out)@)[k]),
{
    let ghost v = texts(out@);
    let mut at: usize = 0;
    while at < out.len() && path_less(&out[at], path)
        invariant
            at <= out.len(),
            v == texts(out@),
            forall|k: int| 0 <= k < at ==> path_lt(#[trigger] v[k], path@),
        decreases out.len() - at,
    {
        assert(v[at as int] == out@[at as int]@);
        at = at + 1;
    }
    assert(at < v.len() ==> v[at as int] == out@[at as int]@);
    if at < out.len() && is_same_path(&out[at], path) {
        assert(same_path(path@, v[at as int]));
        return ;
    }
    out.insert(at, path.to_owned());
    proof {
        let w = texts(out@);
        assert(w =~= v.insert(at as int, path@));
        assert forall|k: int| at <= k < v.len() implies path_lt(path@, #[trigger] v[k]) by {
            path_lt_total(path@, v[at as int]);
            if k > at {
                assert(path_lt(v[at as int], v[k]));
                path_lt_transitive(path@, v[at as int], v[k]);
            }
        }
        assert forall|a: int, b: int| 0 <= a < b < w.len() implies path_lt(
            #[trigger] w[a],
            #[trigger] w[b],
        ) by {
            if a < at && at < b {
                assert(path_lt(v[a], path@));
                assert(path_lt(path@, v[b - 1]));
                path_lt_transitive(v[a], path@, v[b - 1]);
            } else if a < at && b < at {
                assert(path_lt(v[a], v[b]));
            } else if a < at {
                assert(path_lt(v[a], path@));
            } else if a == at {
                assert(path_lt(path@, v[b - 1]));
            } else {
                assert(path_lt(v[a - 1], v[b - 1]));
            }
        }
        assert(same_path(path@, w[at as int]));
        assert forall|p: Seq<char>| #[trigger] lists_path(v, p) implies lists_path(w, p) by {
            let k = choose|k: int| 0 <= k < v.len() && same_path(p, #[trigger] v[k]);
            if k < at {
                assert(w[k] == v[k]);
            } else {
                assert(w[k + 1] == v[k]);
            }
        }
        assert forall|k: int| 0 <= k < w.len() implies #[trigger] w[k] == path@ || v.contains(
            w[k],
        ) by {
            if k < at {
                assert(v[k] == w[k]);
            } else if k > at {
                assert(v[k - 1] == w[k]);
            }
        }
    }
}

/// The files that hold this locale today, sorted. A locale without data has
/// none.
pub fn origin_paths(store: &Store, locale: &str) -> (out: Vec<String>)
    ensures
        origins(
            texts(out@),
            if store.trees@.contains_key(locale@) {
                store.trees@[locale@].data()
            } else {
                Seq::empty()
            },
        ),
{
    let mut out: Vec<String> = Vec::new();
    let tree = match store.tree(locale) {
        Some(tree) => tree,
        None => {
            return out;
        },
    };
    let ghost data = tree.data();
    let mut i: usize = 0;
    while i < tree.leaves.len()
        invariant
            i <= tree.leaves.len(),
            data == tree.data(),
            data.len() == tree.leaves.len(),
            origins(texts(out@), data.take(i as int)),
        decreases tree.leaves.len() - i,
    {
        let path = &tree.leaves[i].path;
        assert(data[i as int].path == path@);
        let ghost v = texts(out@);
        let ghost before = data.take(i as int);
        let ghost after = data.take(i + 1);
        add_path(&mut out, path);
        proof {
            let w = texts(out@);
            assert(after[i as int] == data[i as int]);
            assert forall|j: int| 0 <= j < after.len() implies lists_path(
                w,
                (#[trigger] after[j]).path,
            ) by {
                if j < i {
                    assert(before[j] == after[j]);
                    assert(lists_path(v, before[j].path));
                }
            }
            assert forall|k: int| 0 <= k < w.len() implies holds_leaf(after, #[trigger] w[k]) by {
                if w[k] == path@ {
                    assert(after[i as int].path == w[k]);
                } else {
                    let o = v.index_of(w[k]);
                    assert(v[o] == w[k]);
                    assert(holds_leaf(before, v[o]));
                    let j = choose|j: int|
                        0 <= j < before.len() && (#[trigger] before[j]).path == v[o];
                    assert(after[j] == before[j]);
                }
            }
        }
        i = i + 1;
    }
    assert(data.take(i as int) =~= data);
    out
}

/// Whether the groups that fill in the path of every key of the locale stand
/// for whole characters, so that the locale can be routed.
pub fn can_route(cfg: &Config, store: &Store, locale: &str, force_pattern: bool) -> (b: bool)
    requires
        store.wf(),
    ensures
        b == routable(cfg, store, locale@, force_pattern),
{
    let by_pattern = force_pattern || match cfg.data.router {
        Router::Pattern => true,
        Router::Conservative => false,
    };
    let ghost how = routing(cfg, store, locale@, force_pattern);
    let tree = match store.tree(locale) {
        Some(tree) => tree,
        None => {
            return true;
        },
    };
    let ghost keys = tree.keys();
    let router = PatternRouter::new(cfg);
    let mut i: usize = 0;
    while i < tree.leaves.len()
        invariant
            i <= tree.leaves.len(),
            keys == tree.keys(),
            keys.len() == tree.leaves.len(),
            store.wf(),
            store.trees@.contains_key(locale@),
            *tree == store.trees@[locale@],
            how == routing(cfg, store, locale@, force_pattern),
            by_pattern == how.by_pattern,
            router@ == cfg@.data.write,
            forall|j: int| 0 <= j < i ==> how.clean(#[trigger] keys[j]),
        decreases tree.leaves.len() - i,
    {
        let key = &tree.leaves[i].key;
        assert(keys[i as int] == key@);
        // A key that is kept in place needs no path of its own.
        let kept = !by_pattern && find_leaf(store, locale, key).is_some();
        if !kept && !router.is_clean(locale, key) {
            proof {
                if !by_pattern {
                    assert(tree.keys().contains(key@));
                    assert(leaf_of(store.trees@, locale@, key@) is Some);
                }
                assert(!how.clean(keys[i as int]));
            }
            return false;
        }
        i = i + 1;
    }
    true
}

impl PatternRouter {
    /// Whether the groups that fill in the path of the key stand for whole
    /// characters.
    fn is_clean(&self, locale: &str, key: &str) -> (b: bool)
        ensures
            b == routes_cleanly(self@, locale@, key@),
    {
        proof {
            use_type_invariant(self);
        }
        let ghost rules = rules_of(self@);
        let mut i: usize = 0;
        while i < self.routes.len()
            invariant
                i <= self.routes.len(),
                self.wf(),
                rules == rules_of(self@),
                rule_for(rules, key@, 0) == rule_for(rules, key@, i as int),
            decreases self.routes.len() - i,
        {
            let (pattern, path) = &self.routes[i];
            assert(self.routes@[i as int].0@ == rules[i as int].0);
            if let Some(caps) = pattern.captures(key) {
                return whole_characters(&interpolate_locale(path, locale), key, &caps);
            }
            i = i + 1;
        }
        true
    }
}

/// Whether every group that the path refers to stands for whole characters.
pub fn whole_characters(path: &str, key: &str, caps: &Captures) -> (b: bool)
    ensures
        b == cuts_no_character(path@, key@, spans_of(caps@)),
{
    let v = chars_of(path);
    let ghost spans = spans_of(caps@);
    proof {
        vstd::utf8::encode_utf8_valid_utf8(key@);
    }
    let bytes = key.as_bytes();
    let mut i: usize = 0;
    while i < v.len()
        invariant
            i <= v.len(),
            v@ == path@,
            spans == spans_of(caps@),
            bytes@ == encode_utf8(key@),
            forall|j: int|
                0 <= j < i ==> (#[trigger] reference_at(path@, j) matches Some(n) ==> (group_span(
                    spans,
                    n,
                ) matches Some((a, b)) ==> whole_span(key@, a, b))),
        decreases v.len() - i,
    {
        if v[i] == '\\' && i + 1 < v.len() && digit(v[i + 1]) {
            let n: usize = (v[i + 1] as u32 - 48) as usize;
            assert(reference_at(path@, i as int) == Some(n as int));
            if n >= 1 && n <= caps.len() {
                assert(spans[n - 1] == match caps@[n - 1] {
                    Some((a, b)) => Some((a as int, b as int)),
                    None => None,
                });
                if let Some((a, b)) = caps[n - 1] {
                    assert(group_span(spans, n as int) == Some((a as int, b as int)));
                    if !(a <= b && b <= bytes.len() && key.is_char_boundary(a)
                        && key.is_char_boundary(b)) {
                        return false;
                    }
                }
            }
        }
        i = i + 1;
    }
    true
}

// -------------------------------------------------------------------------- laws

/// The conservative router moves nothing: a key that the locale has goes to the
/// file that it comes from.
pub proof fn an_existing_key_stays_in_its_file(r: RouteV, key: Seq<char>)
    requires
        !r.by_pattern,
        leaf_of(r.trees, r.locale, key) is Some,
    ensures
        r.destination(key) == Ok::<Seq<char>, Seq<char>>(
            path_under(r.root, leaf_of(r.trees, r.locale, key)->Some_0.path),
        ),
{
}

/// The keys that go to a file are those that are sent there.
proof fn sent_keys(
    r: RouteV,
    keys: Seq<Seq<char>>,
    skip: Map<Seq<char>, ()>,
    n: int,
    path: Seq<char>,
    key: Seq<char>,
)
    requires
        0 <= n <= keys.len(),
    ensures
        keys_sent(r, keys, skip, n, path).contains(key) <==> exists|j: int|
            0 <= j < n && #[trigger] keys[j] == key && sent_to(r, key, skip, path),
    decreases n,
{
    if n > 0 {
        sent_keys(r, keys, skip, n - 1, path, key);
        let before = keys_sent(r, keys, skip, n - 1, path);
        let now = keys_sent(r, keys, skip, n, path);
        if now.contains(key) {
            let k = now.index_of(key);
            if k < before.len() {
                assert(before[k] == key);
                assert(before.contains(key));
            } else {
                assert(keys[n - 1] == key);
            }
        }
        if exists|j: int| 0 <= j < n && #[trigger] keys[j] == key && sent_to(r, key, skip, path) {
            let j = choose|j: int|
                0 <= j < n && #[trigger] keys[j] == key && sent_to(r, key, skip, path);
            if j < n - 1 {
                assert(before.contains(key));
                assert(now[before.index_of(key)] == key);
            } else {
                assert(now[before.len() as int] == key);
            }
        }
    }
}

/// No key is lost and none is written twice: every key that is not skipped goes
/// to exactly one file.
pub proof fn a_key_goes_to_exactly_one_file(
    v: Seq<Destination>,
    r: RouteV,
    keys: Seq<Seq<char>>,
    skip: Map<Seq<char>, ()>,
    j: int,
)
    requires
        grouped(v, r, keys, skip, keys.len() as int),
        0 <= j < keys.len(),
        !skip.contains_key(keys[j]),
    ensures
        exists|i: int| 0 <= i < v.len() && texts((#[trigger] v[i]).keys@).contains(keys[j]),
        forall|a: int, b: int|
            0 <= a < v.len() && 0 <= b < v.len() && texts((#[trigger] v[a]).keys@).contains(
                keys[j],
            ) && texts((#[trigger] v[b]).keys@).contains(keys[j]) ==> a == b,
{
    let key = keys[j];
    let n = keys.len() as int;
    let p = r.destination(key)->Ok_0;
    assert(has_path(v, p));
    let i = choose|i: int| 0 <= i < v.len() && same_path(p, (#[trigger] v[i]).path@);
    sent_keys(r, keys, skip, n, v[i].path@, key);
    assert(keys[j] == key && sent_to(r, key, skip, v[i].path@));
    assert(texts(v[i].keys@).contains(key));
    assert forall|a: int, b: int|
        0 <= a < v.len() && 0 <= b < v.len() && texts((#[trigger] v[a]).keys@).contains(key)
            && texts((#[trigger] v[b]).keys@).contains(key) implies a == b by {
        sent_keys(r, keys, skip, n, v[a].path@, key);
        sent_keys(r, keys, skip, n, v[b].path@, key);
        assert(same_path(v[a].path@, v[b].path@));
        let paths = destination_paths(v);
        path_lt_irreflexive(paths[a], paths[b]);
        path_lt_irreflexive(paths[b], paths[a]);
        if a < b {
            assert(path_lt(paths[a], paths[b]));
        }
        if b < a {
            assert(path_lt(paths[b], paths[a]));
        }
    }
}

/// A key that is skipped goes to no file.
pub proof fn a_skipped_key_goes_nowhere(
    v: Seq<Destination>,
    r: RouteV,
    keys: Seq<Seq<char>>,
    skip: Map<Seq<char>, ()>,
    key: Seq<char>,
    i: int,
)
    requires
        grouped(v, r, keys, skip, keys.len() as int),
        skip.contains_key(key),
        0 <= i < v.len(),
    ensures
        !texts(v[i].keys@).contains(key),
{
    sent_keys(r, keys, skip, keys.len() as int, v[i].path@, key);
}

// ---------------------------------------------------- the locale there and back

/// A character that sets a locale off in a path.
pub open spec fn sets_off(c: char) -> bool {
    c == '/' || c == '.' || c == '-'
}

/// A locale of one part: not empty, and nothing in it sets a part off.
pub open spec fn is_one_part(locale: Seq<char>) -> bool {
    locale.len() > 0 && forall|i: int|
        0 <= i < locale.len() ==> !sets_off(#[trigger] locale[i])
}

/// Inside a run of characters that set nothing off, nothing is replaced.
proof fn a_run_is_copied(path: Seq<char>, i: int, n: int, from: Seq<char>, to: Seq<char>)
    requires
        0 <= i,
        0 <= n,
        i + n <= path.len(),
        n > 0 ==> !locale_at(path, i, from),
        forall|j: int| i <= j < i + n ==> !sets_off(#[trigger] path[j]),
    ensures
        replaced_from(path, i, from, to) == path.subrange(i, i + n) + replaced_from(
            path,
            i + n,
            from,
            to,
        ),
    decreases n,
{
    if n == 0 {
        assert(path.subrange(i, i) =~= Seq::empty());
        assert(Seq::<char>::empty() + replaced_from(path, i, from, to) =~= replaced_from(
            path,
            i,
            from,
            to,
        ));
    } else {
        assert(!sets_off(path[i]));
        a_run_is_copied(path, i + 1, n - 1, from, to);
        assert(seq![path[i]] + path.subrange(i + 1, i + n) =~= path.subrange(i, i + n));
        assert(seq![path[i]] + (path.subrange(i + 1, i + n) + replaced_from(
            path,
            i + n,
            from,
            to,
        )) =~= path.subrange(i, i + n) + replaced_from(path, i + n, from, to));
    }
}

/// Where the new locale would be taken for one in the result, it already stood
/// in the path.
proof fn the_new_locale_stood_there(
    path: Seq<char>,
    i: int,
    k: int,
    from: Seq<char>,
    to: Seq<char>,
    head: Seq<char>,
)
    requires
        is_one_part(from),
        is_one_part(to),
        0 <= i < path.len(),
        0 <= k <= to.len(),
        i + k <= path.len(),
        path.subrange(i, i + k) == to.take(k),
        !locale_at(path, i, from),
        i == 0 || sets_off(path[i - 1]),
        locale_at(head + replaced_from(path, i, from, to), head.len() as int, to),
    ensures
        locale_at(path, i, to),
    decreases to.len() - k,
{
    let rest = replaced_from(path, i, from, to);
    let all = head + rest;
    let at = head.len() as int;
    let next = replaced_from(path, i + k, from, to);
    assert forall|j: int| i <= j < i + k implies !sets_off(#[trigger] path[j]) by {
        assert(path.subrange(i, i + k)[j - i] == path[j]);
        assert(to.take(k)[j - i] == to[j - i]);
    }
    a_run_is_copied(path, i, k, from, to);
    assert(all.subrange(at, at + to.len()) == to);
    if k > 0 {
        assert(!sets_off(path[i + k - 1]));
    }
    assert(!locale_at(path, i + k, from));
    if k < to.len() {
        assert(all[at + k] == to[k]) by {
            assert(all.subrange(at, at + to.len())[k] == all[at + k]);
        }
        assert(all[at + k] == rest[k]);
        assert(rest[k] == next[0]);
        assert(next[0] == path[i + k]);
        assert(path.subrange(i, i + k + 1) =~= to.take(k + 1)) by {
            assert forall|j: int| 0 <= j < k + 1 implies path[i + j] == to[j] by {
                if j < k {
                    assert(path.subrange(i, i + k)[j] == path[i + j]);
                    assert(to.take(k)[j] == to[j]);
                }
            }
        }
        the_new_locale_stood_there(path, i, k + 1, from, to, head);
    } else {
        assert(to.take(k) =~= to);
        let end = at + to.len();
        assert(all[end] == rest[k]);
        assert(rest[k] == next[0]);
        assert(next[0] == path[i + k]);
    }
}

proof fn back_from(path: Seq<char>, i: int, from: Seq<char>, to: Seq<char>, head: Seq<char>)
    requires
        is_one_part(from),
        is_one_part(to),
        0 <= i <= path.len(),
        forall|j: int| 0 <= j < path.len() ==> !#[trigger] locale_at(path, j, to),
        i == 0 <==> head.len() == 0,
        i > 0 ==> head.last() == path[i - 1] || !sets_off(head.last()) && !sets_off(path[i - 1]),
    ensures
        replaced_from(
            head + replaced_from(path, i, from, to),
            head.len() as int,
            to,
            from,
        ) == path.skip(i),
    decreases path.len() - i,
{
    let rest = replaced_from(path, i, from, to);
    let all = head + rest;
    let at = head.len() as int;
    if i == path.len() {
        assert(path.skip(i) =~= Seq::empty());
    } else {
        assert(at > 0 ==> all[at - 1] == head.last());
        if locale_at(path, i, from) {
            let end = i + from.len();
            let tail = replaced_from(path, end, from, to);
            if locale_at(path, end, from) {
                assert(path.subrange(end, end + from.len())[0] == path[end]);
                assert(!sets_off(from[0]));
            }
            assert(tail[0] == path[end]);
            assert(path.subrange(i, end)[from.len() - 1] == path[end - 1]);
            assert(!sets_off(from[from.len() - 1]) && !sets_off(to[to.len() - 1]));
            back_from(path, end, from, to, head + to);
            assert(all =~= (head + to) + tail);
            assert(all.subrange(at, at + to.len()) =~= to);
            assert(all[at + to.len()] == tail[0]);
            assert(locale_at(all, at, to));
            assert(from + path.skip(end) =~= path.skip(i)) by {
                assert(path.skip(i) =~= path.subrange(i, end) + path.skip(end));
            }
        } else {
            let tail = replaced_from(path, i + 1, from, to);
            let more = head.push(path[i]);
            back_from(path, i + 1, from, to, more);
            assert(all =~= more + tail);
            if locale_at(all, at, to) {
                assert(path.subrange(i, i) =~= to.take(0));
                the_new_locale_stood_there(path, i, 0, from, to, head);
            }
            assert(all[at] == path[i]);
            assert(seq![path[i]] + path.skip(i + 1) =~= path.skip(i));
        }
    }
}

/// Replacing a locale by one that does not stand in the path, and that one by
/// the first again, gives the path back. Both are locales of one part.
pub proof fn a_locale_is_replaced_there_and_back(path: Seq<char>, from: Seq<char>, to: Seq<char>)
    requires
        is_one_part(from),
        is_one_part(to),
        forall|j: int| 0 <= j < path.len() ==> !#[trigger] locale_at(path, j, to),
    ensures
        replaced(replaced(path, from, to), to, from) == path,
{
    let none = Seq::<char>::empty();
    back_from(path, 0, from, to, none);
    assert(none + replaced(path, from, to) =~= replaced(path, from, to));
    assert(path.skip(0) =~= path);
}

/// Replacing a locale by itself changes nothing.
pub proof fn a_locale_replaced_by_itself_stays(path: Seq<char>, locale: Seq<char>)
    ensures
        replaced(path, locale, locale) == path,
{
    stays_from(path, 0, locale);
    assert(path.skip(0) =~= path);
}

proof fn stays_from(path: Seq<char>, i: int, locale: Seq<char>)
    requires
        0 <= i <= path.len(),
    ensures
        replaced_from(path, i, locale, locale) == path.skip(i),
    decreases path.len() - i,
{
    if i < path.len() {
        if locale_at(path, i, locale) && locale.len() > 0 {
            stays_from(path, i + locale.len(), locale);
            assert(path.skip(i) =~= path.subrange(i, i + locale.len()) + path.skip(
                i + locale.len(),
            ));
        } else {
            stays_from(path, i + 1, locale);
            assert(seq![path[i]] + path.skip(i + 1) =~= path.skip(i));
        }
    } else {
        assert(path.skip(i) =~= Seq::empty());
    }
}

} // verus!
