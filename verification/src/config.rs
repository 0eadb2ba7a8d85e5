//! The plain-YAML configuration file.
//!
//! The file is data: a `<%` anywhere in it is an error, and so is any key that
//! the tool does not understand.
use crate::data::load::{bool_text, clone_texts, result_is, show_bool};
use crate::pattern::PatternSet;
use crate::text::{
    chars_of, concat, contains, debug_of, debug_text, has_text, join, join_of, occurs_at, push_text,
    same_text, split, split_of, stands_at, texts, trim, trim_of,
};
use crate::yaml::{entries_model, nodes_model, Node, NodeV};
use vstd::prelude::*;
use vstd::utf8::encode_utf8;

verus! {

/// Where the configuration is looked for.
pub const DEFAULT_CONFIG_PATH: &'static str = "config/i18n-tasks-rs.yml";

// ---------------------------------------------------------------- interpolation

/// The template from `i` on with `%{locale}` replaced and `%%` read as `%`.
pub open spec fn interpolated_from(template: Seq<char>, i: int, locale: Seq<char>) -> Seq<char>
    decreases template.len() - i,
{
    if i < 0 || i >= template.len() {
        Seq::empty()
    } else if occurs_at(template, "%%"@, i) && "%%"@.len() == 2 {
        "%"@ + interpolated_from(template, i + 2, locale)
    } else if occurs_at(template, "%{locale}"@, i) && "%{locale}"@.len() == 9 {
        locale + interpolated_from(template, i + 9, locale)
    } else {
        seq![template[i]] + interpolated_from(template, i + 1, locale)
    }
}

/// The template with `%{locale}` replaced and `%%` read as `%`.
pub open spec fn interpolated(template: Seq<char>, locale: Seq<char>) -> Seq<char> {
    interpolated_from(template, 0, locale)
}

/// `%{locale}` substitution, with `%%` as an escaped `%`.
pub fn interpolate_locale(template: &str, locale: &str) -> (out: String)
    ensures
        out@ == interpolated(template@, locale@),
{
    let v = chars_of(template);
    let percent = chars_of("%%");
    let mark = chars_of("%{locale}");
    let mut out = String::new();
    let mut i: usize = 0;
    proof {
        reveal_strlit("%%");
        reveal_strlit("%{locale}");
        assert(out@ + interpolated_from(v@, 0, locale@) =~= interpolated(template@, locale@));
    }
    while i < v.len()
        invariant
            v@ == template@,
            percent@ == "%%"@,
            mark@ == "%{locale}"@,
            "%%"@.len() == 2,
            "%{locale}"@.len() == 9,
            i <= v.len(),
            out@ + interpolated_from(v@, i as int, locale@) == interpolated(template@, locale@),
        decreases v.len() - i,
    {
        let ghost before = out@;
        if stands_at(&v, &percent, i) {
            out.append("%");
            i = i + 2;
            assert(out@ + interpolated_from(v@, i as int, locale@) =~= before + ("%"@
                + interpolated_from(v@, i as int, locale@)));
        } else if stands_at(&v, &mark, i) {
            out.append(locale);
            i = i + 9;
            assert(out@ + interpolated_from(v@, i as int, locale@) =~= before + (locale@
                + interpolated_from(v@, i as int, locale@)));
        } else {
            out.push(v[i]);
            i = i + 1;
            assert(out@ + interpolated_from(v@, i as int, locale@) =~= before + (seq![v@[i - 1]]
                + interpolated_from(v@, i as int, locale@)));
        }
    }
    out
}

// ----------------------------------------------------------------- ignore lists

/// The four typed `ignore_*` config keys. The global `ignore` is merged into
/// every one of them.
#[derive(Clone, Copy, Debug, PartialEq, Eq, Structural)]
pub enum IgnoreType {
    Missing,
    Unused,
    EqBase,
    InconsistentInterpolations,
}

/// Either a flat list or a per-locale map.
#[derive(Clone, Debug)]
pub enum IgnoreSpec {
    Empty,
    All(Vec<String>),
    /// Keys are locale lists such as `fr,es`, plus the special `all`.
    PerLocale(Vec<(Vec<String>, Vec<String>)>),
}

/// What an [`IgnoreSpec`] holds.
pub enum IgnoreV {
    Empty,
    All(Seq<Seq<char>>),
    PerLocale(Seq<(Seq<Seq<char>>, Seq<Seq<char>>)>),
}

/// What a list of groups holds.
pub open spec fn groups_model(v: Seq<(Vec<String>, Vec<String>)>) -> Seq<
    (Seq<Seq<char>>, Seq<Seq<char>>),
> {
    Seq::new(v.len(), |i: int| (texts(v[i].0@), texts(v[i].1@)))
}

impl View for IgnoreSpec {
    type V = IgnoreV;

    open spec fn view(&self) -> IgnoreV {
        match self {
            IgnoreSpec::Empty => IgnoreV::Empty,
            IgnoreSpec::All(v) => IgnoreV::All(texts(v@)),
            IgnoreSpec::PerLocale(groups) => IgnoreV::PerLocale(groups_model(groups@)),
        }
    }
}

/// A group applies to every locale, or to this one.
pub open spec fn group_applies(locales: Seq<Seq<char>>, locale: Option<Seq<char>>) -> bool {
    exists|i: int|
        0 <= i < locales.len() && (#[trigger] locales[i] == "all"@ || locale == Some(locales[i]))
}

/// The patterns of the first `n` groups that apply.
pub open spec fn resolved_upto(
    groups: Seq<(Seq<Seq<char>>, Seq<Seq<char>>)>,
    n: int,
    locale: Option<Seq<char>>,
) -> Seq<Seq<char>>
    decreases n,
{
    if n <= 0 {
        Seq::empty()
    } else if group_applies(groups[n - 1].0, locale) {
        resolved_upto(groups, n - 1, locale) + groups[n - 1].1
    } else {
        resolved_upto(groups, n - 1, locale)
    }
}

impl IgnoreV {
    /// The patterns that apply to `locale`, or the locale-independent ones.
    pub open spec fn resolved(self, locale: Option<Seq<char>>) -> Seq<Seq<char>> {
        match self {
            IgnoreV::Empty => Seq::empty(),
            IgnoreV::All(v) => v,
            IgnoreV::PerLocale(groups) => resolved_upto(groups, groups.len() as int, locale),
        }
    }
}

/// The text of an optional string.
pub open spec fn text_in(s: Option<&str>) -> Option<Seq<char>> {
    match s {
        Some(t) => Some(t@),
        None => None,
    }
}

pub(crate) fn extend_texts(out: &mut Vec<String>, more: &Vec<String>)
    ensures
        texts(final(out)@) == texts(old(out)@) + texts(more@),
{
    let mut i: usize = 0;
    assert(texts(out@) + texts(more@).take(0) =~= texts(out@));
    while i < more.len()
        invariant
            i <= more.len(),
            texts(out@) == texts(old(out)@) + texts(more@).take(i as int),
        decreases more.len() - i,
    {
        let ghost before = texts(out@);
        push_text(out, more[i].clone());
        assert(texts(more@).take(i + 1) =~= texts(more@).take(i as int).push(more@[i as int]@));
        assert(texts(out@) =~= texts(old(out)@) + texts(more@).take(i + 1));
        i = i + 1;
    }
    assert(texts(more@).take(i as int) =~= texts(more@));
}

fn applies(locales: &Vec<String>, locale: Option<&str>) -> (b: bool)
    ensures
        b == group_applies(texts(locales@), text_in(locale)),
{
    let mut i: usize = 0;
    while i < locales.len()
        invariant
            i <= locales.len(),
            forall|j: int|
                0 <= j < i ==> #[trigger] texts(locales@)[j] != "all"@ && text_in(locale) != Some(
                    texts(locales@)[j],
                ),
        decreases locales.len() - i,
    {
        let hit = same_text(&locales[i], "all") || match locale {
            Some(want) => same_text(&locales[i], want),
            None => false,
        };
        assert(texts(locales@)[i as int] == locales@[i as int]@);
        if hit {
            return true;
        }
        i = i + 1;
    }
    false
}

impl IgnoreSpec {
    /// The patterns that apply to `locale`, or the locale-independent ones when
    /// `locale` is `None`.
    pub fn resolve(&self, locale: Option<&str>) -> (out: Vec<String>)
        ensures
            texts(out@) == self@.resolved(text_in(locale)),
    {
        let mut out: Vec<String> = Vec::new();
        assert(texts(out@) =~= Seq::empty());
        match self {
            IgnoreSpec::Empty => {},
            IgnoreSpec::All(v) => {
                extend_texts(&mut out, v);
                assert(texts(out@) =~= texts(v@));
            },
            IgnoreSpec::PerLocale(groups) => {
                let ghost model = groups_model(groups@);
                let mut i: usize = 0;
                while i < groups.len()
                    invariant
                        i <= groups.len(),
                        model == groups_model(groups@),
                        texts(out@) == resolved_upto(model, i as int, text_in(locale)),
                    decreases groups.len() - i,
                {
                    let group = &groups[i];
                    assert(model[i as int] == (texts(group.0@), texts(group.1@)));
                    if applies(&group.0, locale) {
                        extend_texts(&mut out, &group.1);
                    }
                    i = i + 1;
                }
            },
        }
        out
    }
}

// ------------------------------------------------------------------ the settings

/// One entry of `data.write`: a bare path, or a key pattern and a path.
#[derive(Clone, Debug)]
pub struct WriteRule {
    pub pattern: Option<String>,
    pub path: String,
}

/// What a [`WriteRule`] holds.
pub struct WriteRuleV {
    pub pattern: Option<Seq<char>>,
    pub path: Seq<char>,
}

impl View for WriteRule {
    type V = WriteRuleV;

    open spec fn view(&self) -> WriteRuleV {
        WriteRuleV {
            pattern: match self.pattern {
                Some(p) => Some(p@),
                None => None,
            },
            path: self.path@,
        }
    }
}

/// What a list of write rules holds.
pub open spec fn rules_model(v: Seq<WriteRule>) -> Seq<WriteRuleV> {
    Seq::new(v.len(), |i: int| v[i]@)
}

/// How a key is routed to a file.
#[derive(Clone, Copy, Debug, PartialEq, Eq, Structural)]
pub enum Router {
    Conservative,
    Pattern,
}

/// Where locale data is read from and written to.
#[derive(Clone, Debug)]
pub struct DataConfig {
    pub read: Vec<String>,
    pub write: Vec<WriteRule>,
    pub external: Vec<String>,
    pub router: Router,
    pub keep_order: bool,
}

/// What a [`DataConfig`] holds.
pub struct DataV {
    pub read: Seq<Seq<char>>,
    pub write: Seq<WriteRuleV>,
    pub external: Seq<Seq<char>>,
    pub router: Router,
    pub keep_order: bool,
}

impl View for DataConfig {
    type V = DataV;

    open spec fn view(&self) -> DataV {
        DataV {
            read: texts(self.read@),
            write: rules_model(self.write@),
            external: texts(self.external@),
            router: self.router,
            keep_order: self.keep_order,
        }
    }
}

/// Where keys are searched for.
#[derive(Clone, Debug)]
pub struct SearchConfig {
    pub paths: Vec<String>,
    pub exclude: Vec<String>,
    pub only: Option<Vec<String>>,
    pub relative_roots: Vec<String>,
    pub relative_exclude_method_name_paths: Vec<String>,
}

/// What a [`SearchConfig`] holds.
pub struct SearchV {
    pub paths: Seq<Seq<char>>,
    pub exclude: Seq<Seq<char>>,
    pub only: Option<Seq<Seq<char>>>,
    pub relative_roots: Seq<Seq<char>>,
    pub relative_exclude_method_name_paths: Seq<Seq<char>>,
}

/// The texts of an optional list.
pub open spec fn texts_in(v: Option<Vec<String>>) -> Option<Seq<Seq<char>>> {
    match v {
        Some(v) => Some(texts(v@)),
        None => None,
    }
}

impl View for SearchConfig {
    type V = SearchV;

    open spec fn view(&self) -> SearchV {
        SearchV {
            paths: texts(self.paths@),
            exclude: texts(self.exclude@),
            only: texts_in(self.only),
            relative_roots: texts(self.relative_roots@),
            relative_exclude_method_name_paths: texts(self.relative_exclude_method_name_paths@),
        }
    }
}

fn clone_optional(v: &Option<Vec<String>>) -> (out: Option<Vec<String>>)
    ensures
        texts_in(out) == texts_in(*v),
{
    match v {
        Some(v) => Some(clone_texts(v)),
        None => None,
    }
}

/// The configuration of one project.
#[derive(Clone, Debug)]
pub struct Config {
    pub base_locale: String,
    /// `None` means "infer from the data files".
    pub locales: Option<Vec<String>>,
    pub data: DataConfig,
    pub search: SearchConfig,
    /// Merged into every other ignore type.
    pub ignore: Vec<String>,
    pub ignore_missing: IgnoreSpec,
    pub ignore_unused: IgnoreSpec,
    pub ignore_eq_base: IgnoreSpec,
    pub ignore_inconsistent_interpolations: IgnoreSpec,
    /// A stable digest of the resolved config.
    pub digest: String,
    /// Directory the config paths are relative to.
    pub root: String,
}

/// What a [`Config`] holds, apart from its digest and its root.
pub struct ConfigV {
    pub base_locale: Seq<char>,
    pub locales: Option<Seq<Seq<char>>>,
    pub data: DataV,
    pub search: SearchV,
    pub ignore: Seq<Seq<char>>,
    pub ignore_missing: IgnoreV,
    pub ignore_unused: IgnoreV,
    pub ignore_eq_base: IgnoreV,
    pub ignore_inconsistent_interpolations: IgnoreV,
}

impl View for Config {
    type V = ConfigV;

    open spec fn view(&self) -> ConfigV {
        ConfigV {
            base_locale: self.base_locale@,
            locales: texts_in(self.locales),
            data: self.data@,
            search: self.search@,
            ignore: texts(self.ignore@),
            ignore_missing: self.ignore_missing@,
            ignore_unused: self.ignore_unused@,
            ignore_eq_base: self.ignore_eq_base@,
            ignore_inconsistent_interpolations: self.ignore_inconsistent_interpolations@,
        }
    }
}

impl ConfigV {
    /// The patterns of one ignore type for a locale, the global ones first.
    pub open spec fn ignored(self, ty: IgnoreType, locale: Option<Seq<char>>) -> Seq<Seq<char>> {
        let spec = match ty {
            IgnoreType::Missing => self.ignore_missing,
            IgnoreType::Unused => self.ignore_unused,
            IgnoreType::EqBase => self.ignore_eq_base,
            IgnoreType::InconsistentInterpolations => self.ignore_inconsistent_interpolations,
        };
        self.ignore + spec.resolved(locale)
    }

    /// The same without an ignore rule.
    pub open spec fn without_rules(self) -> ConfigV {
        ConfigV {
            ignore: Seq::empty(),
            ignore_missing: IgnoreV::Empty,
            ignore_unused: IgnoreV::Empty,
            ignore_eq_base: IgnoreV::Empty,
            ignore_inconsistent_interpolations: IgnoreV::Empty,
            ..self
        }
    }
}

/// The default of `data.read` and of `data.write`.
pub open spec fn default_locale_path() -> Seq<char> {
    "config/locales/%{locale}.yml"@
}

/// The default of `search.relative_roots`.
pub open spec fn default_relative_roots_model() -> Seq<Seq<char>> {
    seq![
        "app/controllers"@,
        "app/helpers"@,
        "app/mailers"@,
        "app/presenters"@,
        "app/views"@,
    ]
}

/// What a file without settings stands for.
pub open spec fn default_config() -> ConfigV {
    ConfigV {
        base_locale: "en"@,
        locales: None,
        data: DataV {
            read: seq![default_locale_path()],
            write: seq![WriteRuleV { pattern: None, path: default_locale_path() }],
            external: Seq::empty(),
            router: Router::Conservative,
            keep_order: false,
        },
        search: SearchV {
            paths: seq!["app/"@],
            exclude: Seq::empty(),
            only: None,
            relative_roots: default_relative_roots_model(),
            relative_exclude_method_name_paths: Seq::empty(),
        },
        ignore: Seq::empty(),
        ignore_missing: IgnoreV::Empty,
        ignore_unused: IgnoreV::Empty,
        ignore_eq_base: IgnoreV::Empty,
        ignore_inconsistent_interpolations: IgnoreV::Empty,
    }
}

/// The default of `search.relative_roots`.
pub fn default_relative_roots() -> (out: Vec<String>)
    ensures
        texts(out@) == default_relative_roots_model(),
{
    let mut out: Vec<String> = Vec::new();
    out.push("app/controllers".to_owned());
    out.push("app/helpers".to_owned());
    out.push("app/mailers".to_owned());
    out.push("app/presenters".to_owned());
    out.push("app/views".to_owned());
    assert(texts(out@) =~= default_relative_roots_model());
    out
}

fn one_text(s: &str) -> (out: Vec<String>)
    ensures
        texts(out@) == seq![s@],
{
    let mut out: Vec<String> = Vec::new();
    out.push(s.to_owned());
    assert(texts(out@) =~= seq![s@]);
    out
}

fn no_texts() -> (out: Vec<String>)
    ensures
        texts(out@) == Seq::<Seq<char>>::empty(),
{
    let out: Vec<String> = Vec::new();
    assert(texts(out@) =~= Seq::<Seq<char>>::empty());
    out
}

// ------------------------------------------------------------- reading a setting

/// A list of strings. A single string stands for a list of one.
pub open spec fn str_list_of(node: NodeV, ctx: Seq<char>) -> Result<Seq<Seq<char>>, Seq<char>> {
    match node {
        NodeV::Scalar { value, .. } => Ok(seq![value]),
        NodeV::List { items, .. } => if exists|i: int|
            0 <= i < items.len() && (#[trigger] items[i]).text() is None {
            Err(ctx + ": expected a string"@)
        } else {
            Ok(Seq::new(items.len(), |i: int| items[i].text()->Some_0))
        },
        NodeV::Mapping { .. } => Err(ctx + ": expected a string or a list"@),
    }
}

/// A result and the texts that it holds.
pub open spec fn list_is(r: Result<Vec<String>, String>, want: Result<Seq<Seq<char>>, Seq<char>>) -> bool {
    match r {
        Ok(v) => want == Ok::<Seq<Seq<char>>, Seq<char>>(texts(v@)),
        Err(e) => want == Err::<Seq<Seq<char>>, Seq<char>>(e@),
    }
}

fn str_list(node: &Node, ctx: &str) -> (r: Result<Vec<String>, String>)
    ensures
        list_is(r, str_list_of(node@, ctx@)),
{
    match node {
        Node::Scalar { value, .. } => Ok(one_text(value)),
        Node::List { items, .. } => {
            let ghost model = node@->items;
            assert(model =~= nodes_model(items@));
            let mut out: Vec<String> = Vec::new();
            let mut i: usize = 0;
            while i < items.len()
                invariant
                    i <= items.len(),
                    node@ matches NodeV::List { items: m, .. } && m == model,
                    model == nodes_model(items@),
                    out.len() == i,
                    forall|j: int|
                        0 <= j < i ==> (#[trigger] model[j]).text() == Some(out@[j]@),
                decreases items.len() - i,
            {
                assert(model[i as int] == items@[i as int]@);
                match items[i].as_str() {
                    Some(s) => {
                        out.push(s.to_owned());
                    },
                    None => {
                        return Err(concat(ctx, ": expected a string"));
                    },
                }
                i = i + 1;
            }
            proof {
                let want = Seq::new(model.len(), |i: int| model[i].text()->Some_0);
                assert forall|j: int| 0 <= j < model.len() implies texts(out@)[j] == want[j] by {
                    assert(model[j].text() == Some(out@[j]@));
                }
                assert(texts(out@) =~= want);
            }
            Ok(out)
        },
        Node::Mapping { .. } => Err(concat(ctx, ": expected a string or a list")),
    }
}

/// One entry of `data.write`.
pub open spec fn write_rule_of(item: NodeV, ctx: Seq<char>) -> Result<WriteRuleV, Seq<char>> {
    match item {
        NodeV::Scalar { value, .. } => Ok(WriteRuleV { pattern: None, path: value }),
        NodeV::List { items, .. } => if items.len() != 2 {
            Err(ctx + ": each entry must be a path or a [pattern, path] pair"@)
        } else {
            match items[0].text() {
                None => Err(ctx + ": pattern must be a string"@),
                Some(pattern) => match items[1].text() {
                    None => Err(ctx + ": path must be a string"@),
                    Some(path) => Ok(WriteRuleV { pattern: Some(pattern), path }),
                },
            }
        },
        NodeV::Mapping { .. } => Err(
            ctx + ": each entry must be a path or a [pattern, path] pair"@,
        ),
    }
}

/// The first `n` entries of `data.write`, or the first error among them.
pub open spec fn write_rules_upto(items: Seq<NodeV>, n: nat, ctx: Seq<char>) -> Result<
    Seq<WriteRuleV>,
    Seq<char>,
>
    decreases n,
{
    if n == 0 || n > items.len() {
        Ok(Seq::empty())
    } else {
        match write_rules_upto(items, (n - 1) as nat, ctx) {
            Err(e) => Err(e),
            Ok(before) => match write_rule_of(items[n - 1], ctx) {
                Err(e) => Err(e),
                Ok(rule) => Ok(before.push(rule)),
            },
        }
    }
}

/// `data.write`: a path, or a list of entries.
pub open spec fn write_rules_of(node: NodeV, ctx: Seq<char>) -> Result<
    Seq<WriteRuleV>,
    Seq<char>,
> {
    match node {
        NodeV::Scalar { value, .. } => Ok(seq![WriteRuleV { pattern: None, path: value }]),
        NodeV::List { items, .. } => write_rules_upto(items, items.len(), ctx),
        NodeV::Mapping { .. } => Err(ctx + ": expected a string or a list"@),
    }
}

proof fn write_error_stays(items: Seq<NodeV>, n: nat, m: nat, ctx: Seq<char>)
    requires
        n <= m <= items.len(),
        write_rules_upto(items, n, ctx) is Err,
    ensures
        write_rules_upto(items, m, ctx) == write_rules_upto(items, n, ctx),
    decreases m,
{
    if n < m {
        write_error_stays(items, n, (m - 1) as nat, ctx);
    }
}

fn write_rule(item: &Node, ctx: &str) -> (r: Result<WriteRule, String>)
    ensures
        result_is(r, write_rule_of(item@, ctx@)),
{
    match item {
        Node::Scalar { value, .. } => Ok(WriteRule { pattern: None, path: value.clone() }),
        Node::List { items, .. } => {
            assert(item@->items =~= nodes_model(items@));
            if items.len() != 2 {
                return Err(concat(ctx, ": each entry must be a path or a [pattern, path] pair"));
            }
            match items[0].as_str() {
                None => Err(concat(ctx, ": pattern must be a string")),
                Some(pattern) => match items[1].as_str() {
                    None => Err(concat(ctx, ": path must be a string")),
                    Some(path) => Ok(
                        WriteRule { pattern: Some(pattern.to_owned()), path: path.to_owned() },
                    ),
                },
            }
        },
        Node::Mapping { .. } => Err(
            concat(ctx, ": each entry must be a path or a [pattern, path] pair"),
        ),
    }
}

/// `data.write` entries are either a bare path or a `[pattern, path]` pair.
fn write_rules(node: &Node, ctx: &str) -> (r: Result<Vec<WriteRule>, String>)
    ensures
        match r {
            Ok(v) => write_rules_of(node@, ctx@) == Ok::<Seq<WriteRuleV>, Seq<char>>(
                rules_model(v@),
            ),
            Err(e) => write_rules_of(node@, ctx@) == Err::<Seq<WriteRuleV>, Seq<char>>(e@),
        },
{
    match node {
        Node::Scalar { value, .. } => {
            let mut out: Vec<WriteRule> = Vec::new();
            out.push(WriteRule { pattern: None, path: value.clone() });
            assert(rules_model(out@) =~= seq![WriteRuleV { pattern: None, path: value@ }]);
            Ok(out)
        },
        Node::List { items, .. } => {
            let ghost model = node@->items;
            assert(model =~= nodes_model(items@));
            let mut out: Vec<WriteRule> = Vec::new();
            let mut i: usize = 0;
            assert(rules_model(out@) =~= Seq::empty());
            while i < items.len()
                invariant
                    i <= items.len(),
                    node@ matches NodeV::List { items: m, .. } && m == model,
                    model == nodes_model(items@),
                    write_rules_upto(model, i as nat, ctx@) == Ok::<Seq<WriteRuleV>, Seq<char>>(
                        rules_model(out@),
                    ),
                decreases items.len() - i,
            {
                assert(model[i as int] == items@[i as int]@);
                let ghost before = rules_model(out@);
                match write_rule(&items[i], ctx) {
                    Ok(rule) => {
                        out.push(rule);
                        assert(rules_model(out@) =~= before.push(rule@));
                    },
                    Err(e) => {
                        proof {
                            write_error_stays(model, (i + 1) as nat, model.len(), ctx@);
                        }
                        return Err(e);
                    },
                }
                i = i + 1;
            }
            Ok(out)
        },
        Node::Mapping { .. } => Err(concat(ctx, ": expected a string or a list")),
    }
}

/// The names of a group such as `fr, es`: trimmed, the empty ones left out.
pub open spec fn group_names(parts: Seq<Seq<char>>, n: int) -> Seq<Seq<char>>
    decreases n,
{
    if n <= 0 {
        Seq::empty()
    } else if trim_of(parts[n - 1]).len() == 0 {
        group_names(parts, n - 1)
    } else {
        group_names(parts, n - 1).push(trim_of(parts[n - 1]))
    }
}

/// The locales that a group name such as `fr,es` stands for.
pub open spec fn group_names_of(raw: Seq<char>) -> Seq<Seq<char>> {
    group_names(split_of(raw, ','), split_of(raw, ',').len() as int)
}

pub(crate) fn names_of_group(raw: &str) -> (out: Vec<String>)
    ensures
        texts(out@) == group_names_of(raw@),
{
    let parts = split(raw, ',');
    let ghost model = split_of(raw@, ',');
    let mut out: Vec<String> = Vec::new();
    let mut i: usize = 0;
    assert(texts(out@) =~= Seq::empty());
    assert(model.len() == parts.len());
    while i < parts.len()
        invariant
            i <= parts.len(),
            model == texts(parts@),
            texts(out@) == group_names(model, i as int),
        decreases parts.len() - i,
    {
        assert(model[i as int] == parts@[i as int]@);
        let name = trim(&parts[i]);
        if !name.as_str().is_empty() {
            push_text(&mut out, name);
        }
        i = i + 1;
    }
    out
}

/// The first `n` groups of a per-locale ignore map, or the first error.
pub open spec fn groups_upto(entries: Seq<(NodeV, NodeV)>, n: nat, ctx: Seq<char>) -> Result<
    Seq<(Seq<Seq<char>>, Seq<Seq<char>>)>,
    Seq<char>,
>
    decreases n,
{
    if n == 0 || n > entries.len() {
        Ok(Seq::empty())
    } else {
        match groups_upto(entries, (n - 1) as nat, ctx) {
            Err(e) => Err(e),
            Ok(before) => match entries[n - 1].0.text() {
                None => Err(ctx + ": non-string locale group"@),
                Some(raw) => match str_list_of(entries[n - 1].1, ctx) {
                    Err(e) => Err(e),
                    Ok(patterns) => Ok(before.push((group_names_of(raw), patterns))),
                },
            },
        }
    }
}

proof fn groups_error_stays(entries: Seq<(NodeV, NodeV)>, n: nat, m: nat, ctx: Seq<char>)
    requires
        n <= m <= entries.len(),
        groups_upto(entries, n, ctx) is Err,
    ensures
        groups_upto(entries, m, ctx) == groups_upto(entries, n, ctx),
    decreases m,
{
    if n < m {
        groups_error_stays(entries, n, (m - 1) as nat, ctx);
    }
}

/// An `ignore_*` setting: a list, or lists per group of locales.
pub open spec fn ignore_spec_of(node: NodeV, ctx: Seq<char>) -> Result<IgnoreV, Seq<char>> {
    match node {
        NodeV::Mapping { entries, .. } => match groups_upto(entries, entries.len(), ctx) {
            Ok(groups) => Ok(IgnoreV::PerLocale(groups)),
            Err(e) => Err(e),
        },
        _ => match str_list_of(node, ctx) {
            Ok(v) => Ok(IgnoreV::All(v)),
            Err(e) => Err(e),
        },
    }
}

/// A group is found by its exact name: the key is split on `,` and trimmed.
fn ignore_spec(node: &Node, ctx: &str) -> (r: Result<IgnoreSpec, String>)
    ensures
        result_is(r, ignore_spec_of(node@, ctx@)),
{
    match node {
        Node::Mapping { entries, .. } => {
            let ghost model = node@->entries;
            assert(model =~= entries_model(entries@));
            let mut groups: Vec<(Vec<String>, Vec<String>)> = Vec::new();
            let mut i: usize = 0;
            assert(groups_model(groups@) =~= Seq::empty());
            while i < entries.len()
                invariant
                    i <= entries.len(),
                    node@ matches NodeV::Mapping { entries: m, .. } && m == model,
                    model == entries_model(entries@),
                    groups_upto(model, i as nat, ctx@) == Ok::<
                        Seq<(Seq<Seq<char>>, Seq<Seq<char>>)>,
                        Seq<char>,
                    >(groups_model(groups@)),
                decreases entries.len() - i,
            {
                let entry = &entries[i];
                assert(model[i as int] == (entry.0@, entry.1@));
                let ghost before = groups_model(groups@);
                match entry.0.as_str() {
                    None => {
                        proof {
                            groups_error_stays(model, (i + 1) as nat, model.len(), ctx@);
                        }
                        return Err(concat(ctx, ": non-string locale group"));
                    },
                    Some(raw) => {
                        let names = names_of_group(raw);
                        match str_list(&entry.1, ctx) {
                            Ok(patterns) => {
                                groups.push((names, patterns));
                                assert(groups_model(groups@) =~= before.push(
                                    (texts(names@), texts(patterns@)),
                                ));
                            },
                            Err(e) => {
                                proof {
                                    groups_error_stays(model, (i + 1) as nat, model.len(), ctx@);
                                }
                                return Err(e);
                            },
                        }
                    },
                }
                i = i + 1;
            }
            Ok(IgnoreSpec::PerLocale(groups))
        },
        _ => match str_list(node, ctx) {
            Ok(v) => Ok(IgnoreSpec::All(v)),
            Err(e) => Err(e),
        },
    }
}

/// A scalar that switches a setting on.
pub open spec fn is_truthy(node: NodeV) -> bool {
    node.text() == Some("true"@) || node.text() == Some("yes"@) || node.text() == Some("on"@)
}

fn truthy(node: &Node) -> (b: bool)
    ensures
        b == is_truthy(node@),
{
    match node.as_str() {
        Some(s) => same_text(s, "true") || same_text(s, "yes") || same_text(s, "on"),
        None => false,
    }
}

/// The message about a key that is no setting.
pub open spec fn unknown_message(path: Seq<char>, key: Seq<char>) -> Seq<char> {
    path + ": unknown config key `"@ + key
        + "`. Supported keys: base_locale, locales, data.{read,write,external,router,keep_order}, search.{paths,exclude,only,relative_roots,relative_exclude_method_name_paths}, ignore, ignore_missing, ignore_unused, ignore_eq_base, ignore_inconsistent_interpolations."@
}

fn unknown(path: &str, key: &str) -> (out: String)
    ensures
        out@ == unknown_message(path@, key@),
{
    let mut out = concat(path, ": unknown config key `");
    out.append(key);
    out.append(
        "`. Supported keys: base_locale, locales, data.{read,write,external,router,keep_order}, search.{paths,exclude,only,relative_roots,relative_exclude_method_name_paths}, ignore, ignore_missing, ignore_unused, ignore_eq_base, ignore_inconsistent_interpolations.",
    );
    out
}

/// A setting, as messages name it.
pub open spec fn context(path: Seq<char>, key: Seq<char>) -> Seq<char> {
    path + ": `"@ + key + "`"@
}

fn ctx(path: &str, key: &str) -> (out: String)
    ensures
        out@ == context(path@, key@),
{
    let mut out = concat(path, ": `");
    out.append(key);
    out.append("`");
    out
}

/// The text of a scalar, nothing for another node.
pub open spec fn text_or_empty(node: NodeV) -> Seq<char> {
    match node.text() {
        Some(s) => s,
        None => Seq::empty(),
    }
}

fn str_or_empty(node: &Node) -> (out: String)
    ensures
        out@ == text_or_empty(node@),
{
    match node.as_str() {
        Some(s) => s.to_owned(),
        None => String::new(),
    }
}

// ------------------------------------------------------------ applying settings

/// `data` with one more setting.
pub open spec fn with_data_setting(
    data: DataV,
    key: Seq<char>,
    node: NodeV,
    path: Seq<char>,
) -> Result<DataV, Seq<char>> {
    let c = context(path, "data."@ + key);
    if key == "read"@ {
        match str_list_of(node, c) {
            Ok(read) => Ok(DataV { read, ..data }),
            Err(e) => Err(e),
        }
    } else if key == "write"@ {
        match write_rules_of(node, c) {
            Ok(write) => Ok(DataV { write, ..data }),
            Err(e) => Err(e),
        }
    } else if key == "external"@ {
        match str_list_of(node, c) {
            Ok(external) => Ok(DataV { external, ..data }),
            Err(e) => Err(e),
        }
    } else if key == "router"@ {
        if text_or_empty(node) == "conservative_router"@ {
            Ok(DataV { router: Router::Conservative, ..data })
        } else if text_or_empty(node) == "pattern_router"@ {
            Ok(DataV { router: Router::Pattern, ..data })
        } else {
            Err(
                c + ": unknown router `"@ + text_or_empty(node)
                    + "`. Supported: conservative_router, pattern_router."@,
            )
        }
    } else if key == "keep_order"@ {
        match node.text() {
            Some(_) => Ok(DataV { keep_order: is_truthy(node), ..data }),
            None => Err(c + ": expected true or false"@),
        }
    } else {
        Err(unknown_message(path, "data."@ + key))
    }
}

fn apply_data_setting(data: &mut DataConfig, key: &str, node: &Node, path: &str) -> (r: Result<
    (),
    String,
>)
    ensures
        match r {
            Ok(_) => with_data_setting(old(data)@, key@, node@, path@) == Ok::<DataV, Seq<char>>(
                final(data)@,
            ),
            Err(e) => with_data_setting(old(data)@, key@, node@, path@) == Err::<DataV, Seq<char>>(
                e@,
            ),
        },
{
    let full = concat("data.", key);
    let c = ctx(path, &full);
    if same_text(key, "read") {
        match str_list(node, &c) {
            Ok(v) => {
                data.read = v;
                Ok(())
            },
            Err(e) => Err(e),
        }
    } else if same_text(key, "write") {
        match write_rules(node, &c) {
            Ok(v) => {
                data.write = v;
                Ok(())
            },
            Err(e) => Err(e),
        }
    } else if same_text(key, "external") {
        match str_list(node, &c) {
            Ok(v) => {
                data.external = v;
                Ok(())
            },
            Err(e) => Err(e),
        }
    } else if same_text(key, "router") {
        let name = str_or_empty(node);
        if same_text(&name, "conservative_router") {
            data.router = Router::Conservative;
            Ok(())
        } else if same_text(&name, "pattern_router") {
            data.router = Router::Pattern;
            Ok(())
        } else {
            let mut message = concat(&c, ": unknown router `");
            message.append(&name);
            message.append("`. Supported: conservative_router, pattern_router.");
            Err(message)
        }
    } else if same_text(key, "keep_order") {
        if node.as_str().is_none() {
            return Err(concat(&c, ": expected true or false"));
        }
        data.keep_order = truthy(node);
        Ok(())
    } else {
        Err(unknown(path, &full))
    }
}

/// `search` with one more setting.
pub open spec fn with_search_setting(
    search: SearchV,
    key: Seq<char>,
    node: NodeV,
    path: Seq<char>,
) -> Result<SearchV, Seq<char>> {
    let list = str_list_of(node, context(path, "search."@ + key));
    if key == "paths"@ || key == "exclude"@ || key == "only"@ || key == "relative_roots"@ || key
        == "relative_exclude_method_name_paths"@ {
        match list {
            Err(e) => Err(e),
            Ok(v) => if key == "paths"@ {
                Ok(SearchV { paths: v, ..search })
            } else if key == "exclude"@ {
                Ok(SearchV { exclude: v, ..search })
            } else if key == "only"@ {
                Ok(SearchV { only: Some(v), ..search })
            } else if key == "relative_roots"@ {
                Ok(SearchV { relative_roots: v, ..search })
            } else {
                Ok(SearchV { relative_exclude_method_name_paths: v, ..search })
            },
        }
    } else {
        Err(unknown_message(path, "search."@ + key))
    }
}

fn apply_search_setting(search: &mut SearchConfig, key: &str, node: &Node, path: &str) -> (r:
    Result<(), String>)
    ensures
        match r {
            Ok(_) => with_search_setting(old(search)@, key@, node@, path@) == Ok::<
                SearchV,
                Seq<char>,
            >(final(search)@),
            Err(e) => with_search_setting(old(search)@, key@, node@, path@) == Err::<
                SearchV,
                Seq<char>,
            >(e@),
        },
{
    let full = concat("search.", key);
    let paths = same_text(key, "paths");
    let exclude = same_text(key, "exclude");
    let only = same_text(key, "only");
    let roots = same_text(key, "relative_roots");
    if !(paths || exclude || only || roots || same_text(key, "relative_exclude_method_name_paths")) {
        return Err(unknown(path, &full));
    }
    match str_list(node, &ctx(path, &full)) {
        Err(e) => Err(e),
        Ok(v) => {
            if paths {
                search.paths = v;
            } else if exclude {
                search.exclude = v;
            } else if only {
                search.only = Some(v);
            } else if roots {
                search.relative_roots = v;
            } else {
                search.relative_exclude_method_name_paths = v;
            }
            Ok(())
        },
    }
}

/// `data` with the first `n` settings of the section.
pub open spec fn data_section(
    data: DataV,
    entries: Seq<(NodeV, NodeV)>,
    n: nat,
    path: Seq<char>,
) -> Result<DataV, Seq<char>>
    decreases n,
{
    if n == 0 || n > entries.len() {
        Ok(data)
    } else {
        match data_section(data, entries, (n - 1) as nat, path) {
            Err(e) => Err(e),
            Ok(now) => with_data_setting(
                now,
                text_or_empty(entries[n - 1].0),
                entries[n - 1].1,
                path,
            ),
        }
    }
}

proof fn data_error_stays(
    data: DataV,
    entries: Seq<(NodeV, NodeV)>,
    n: nat,
    m: nat,
    path: Seq<char>,
)
    requires
        n <= m <= entries.len(),
        data_section(data, entries, n, path) is Err,
    ensures
        data_section(data, entries, m, path) == data_section(data, entries, n, path),
    decreases m,
{
    if n < m {
        data_error_stays(data, entries, n, (m - 1) as nat, path);
    }
}

fn apply_data(data: &mut DataConfig, entries: &Vec<(Node, Node)>, path: &str) -> (r: Result<
    (),
    String,
>)
    ensures
        match r {
            Ok(_) => data_section(
                old(data)@,
                entries_model(entries@),
                entries.len() as nat,
                path@,
            ) == Ok::<DataV, Seq<char>>(final(data)@),
            Err(e) => data_section(
                old(data)@,
                entries_model(entries@),
                entries.len() as nat,
                path@,
            ) == Err::<DataV, Seq<char>>(e@),
        },
{
    let ghost model = entries_model(entries@);
    let mut i: usize = 0;
    while i < entries.len()
        invariant
            i <= entries.len(),
            model == entries_model(entries@),
            data_section(old(data)@, model, i as nat, path@) == Ok::<DataV, Seq<char>>(data@),
        decreases entries.len() - i,
    {
        let entry = &entries[i];
        assert(model[i as int] == (entry.0@, entry.1@));
        match apply_data_setting(data, &str_or_empty(&entry.0), &entry.1, path) {
            Ok(_) => {},
            Err(e) => {
                proof {
                    data_error_stays(old(data)@, model, (i + 1) as nat, model.len(), path@);
                }
                return Err(e);
            },
        }
        i = i + 1;
    }
    Ok(())
}

/// `search` with the first `n` settings of the section.
pub open spec fn search_section(
    search: SearchV,
    entries: Seq<(NodeV, NodeV)>,
    n: nat,
    path: Seq<char>,
) -> Result<SearchV, Seq<char>>
    decreases n,
{
    if n == 0 || n > entries.len() {
        Ok(search)
    } else {
        match search_section(search, entries, (n - 1) as nat, path) {
            Err(e) => Err(e),
            Ok(now) => with_search_setting(
                now,
                text_or_empty(entries[n - 1].0),
                entries[n - 1].1,
                path,
            ),
        }
    }
}

proof fn search_error_stays(
    search: SearchV,
    entries: Seq<(NodeV, NodeV)>,
    n: nat,
    m: nat,
    path: Seq<char>,
)
    requires
        n <= m <= entries.len(),
        search_section(search, entries, n, path) is Err,
    ensures
        search_section(search, entries, m, path) == search_section(search, entries, n, path),
    decreases m,
{
    if n < m {
        search_error_stays(search, entries, n, (m - 1) as nat, path);
    }
}

fn apply_search(search: &mut SearchConfig, entries: &Vec<(Node, Node)>, path: &str) -> (r: Result<
    (),
    String,
>)
    ensures
        match r {
            Ok(_) => search_section(
                old(search)@,
                entries_model(entries@),
                entries.len() as nat,
                path@,
            ) == Ok::<SearchV, Seq<char>>(final(search)@),
            Err(e) => search_section(
                old(search)@,
                entries_model(entries@),
                entries.len() as nat,
                path@,
            ) == Err::<SearchV, Seq<char>>(e@),
        },
{
    let ghost model = entries_model(entries@);
    let mut i: usize = 0;
    while i < entries.len()
        invariant
            i <= entries.len(),
            model == entries_model(entries@),
            search_section(old(search)@, model, i as nat, path@) == Ok::<SearchV, Seq<char>>(
                search@,
            ),
        decreases entries.len() - i,
    {
        let entry = &entries[i];
        assert(model[i as int] == (entry.0@, entry.1@));
        match apply_search_setting(search, &str_or_empty(&entry.0), &entry.1, path) {
            Ok(_) => {},
            Err(e) => {
                proof {
                    search_error_stays(old(search)@, model, (i + 1) as nat, model.len(), path@);
                }
                return Err(e);
            },
        }
        i = i + 1;
    }
    Ok(())
}

/// The configuration with one more top-level setting.
pub open spec fn with_setting(
    cfg: ConfigV,
    key: Seq<char>,
    node: NodeV,
    path: Seq<char>,
) -> Result<ConfigV, Seq<char>> {
    let c = context(path, key);
    if key == "base_locale"@ {
        match node.text() {
            Some(base_locale) => Ok(ConfigV { base_locale, ..cfg }),
            None => Err(c + " must be a string"@),
        }
    } else if key == "locales"@ {
        match str_list_of(node, c) {
            Ok(v) => Ok(ConfigV { locales: Some(v), ..cfg }),
            Err(e) => Err(e),
        }
    } else if key == "ignore"@ {
        match str_list_of(node, c) {
            Ok(ignore) => Ok(ConfigV { ignore, ..cfg }),
            Err(e) => Err(e),
        }
    } else if key == "ignore_missing"@ {
        match ignore_spec_of(node, c) {
            Ok(ignore_missing) => Ok(ConfigV { ignore_missing, ..cfg }),
            Err(e) => Err(e),
        }
    } else if key == "ignore_unused"@ {
        match ignore_spec_of(node, c) {
            Ok(ignore_unused) => Ok(ConfigV { ignore_unused, ..cfg }),
            Err(e) => Err(e),
        }
    } else if key == "ignore_eq_base"@ {
        match ignore_spec_of(node, c) {
            Ok(ignore_eq_base) => Ok(ConfigV { ignore_eq_base, ..cfg }),
            Err(e) => Err(e),
        }
    } else if key == "ignore_inconsistent_interpolations"@ {
        match ignore_spec_of(node, c) {
            Ok(v) => Ok(ConfigV { ignore_inconsistent_interpolations: v, ..cfg }),
            Err(e) => Err(e),
        }
    } else if key == "data"@ {
        match node.entries() {
            None => Err(c + " must be a mapping"@),
            Some(entries) => match data_section(cfg.data, entries, entries.len(), path) {
                Ok(data) => Ok(ConfigV { data, ..cfg }),
                Err(e) => Err(e),
            },
        }
    } else if key == "search"@ {
        match node.entries() {
            None => Err(c + " must be a mapping"@),
            Some(entries) => match search_section(cfg.search, entries, entries.len(), path) {
                Ok(search) => Ok(ConfigV { search, ..cfg }),
                Err(e) => Err(e),
            },
        }
    } else {
        Err(unknown_message(path, key))
    }
}

fn apply_setting(cfg: &mut Config, key: &str, node: &Node, path: &str) -> (r: Result<(), String>)
    ensures
        match r {
            Ok(_) => with_setting(old(cfg)@, key@, node@, path@) == Ok::<ConfigV, Seq<char>>(
                final(cfg)@,
            ),
            Err(e) => with_setting(old(cfg)@, key@, node@, path@) == Err::<ConfigV, Seq<char>>(e@),
        },
        final(cfg).root@ == old(cfg).root@,
{
    let c = ctx(path, key);
    if same_text(key, "base_locale") {
        match node.as_str() {
            Some(s) => {
                cfg.base_locale = s.to_owned();
                Ok(())
            },
            None => Err(concat(&c, " must be a string")),
        }
    } else if same_text(key, "locales") {
        match str_list(node, &c) {
            Ok(v) => {
                cfg.locales = Some(v);
                Ok(())
            },
            Err(e) => Err(e),
        }
    } else if same_text(key, "ignore") {
        match str_list(node, &c) {
            Ok(v) => {
                cfg.ignore = v;
                Ok(())
            },
            Err(e) => Err(e),
        }
    } else if same_text(key, "ignore_missing") {
        match ignore_spec(node, &c) {
            Ok(v) => {
                cfg.ignore_missing = v;
                Ok(())
            },
            Err(e) => Err(e),
        }
    } else if same_text(key, "ignore_unused") {
        match ignore_spec(node, &c) {
            Ok(v) => {
                cfg.ignore_unused = v;
                Ok(())
            },
            Err(e) => Err(e),
        }
    } else if same_text(key, "ignore_eq_base") {
        match ignore_spec(node, &c) {
            Ok(v) => {
                cfg.ignore_eq_base = v;
                Ok(())
            },
            Err(e) => Err(e),
        }
    } else if same_text(key, "ignore_inconsistent_interpolations") {
        match ignore_spec(node, &c) {
            Ok(v) => {
                cfg.ignore_inconsistent_interpolations = v;
                Ok(())
            },
            Err(e) => Err(e),
        }
    } else if same_text(key, "data") {
        match node.as_map() {
            None => Err(concat(&c, " must be a mapping")),
            Some(entries) => apply_data(&mut cfg.data, entries, path),
        }
    } else if same_text(key, "search") {
        match node.as_map() {
            None => Err(concat(&c, " must be a mapping")),
            Some(entries) => apply_search(&mut cfg.search, entries, path),
        }
    } else {
        Err(unknown(path, key))
    }
}

/// The default configuration with the first `n` settings of the file.
pub open spec fn settings_upto(entries: Seq<(NodeV, NodeV)>, n: nat, path: Seq<char>) -> Result<
    ConfigV,
    Seq<char>,
>
    decreases n,
{
    if n == 0 || n > entries.len() {
        Ok(default_config())
    } else {
        match settings_upto(entries, (n - 1) as nat, path) {
            Err(e) => Err(e),
            Ok(now) => match entries[n - 1].0.text() {
                None => Err(path + ": non-string config key"@),
                Some(key) => with_setting(now, key, entries[n - 1].1, path),
            },
        }
    }
}

proof fn settings_error_stays(entries: Seq<(NodeV, NodeV)>, n: nat, m: nat, path: Seq<char>)
    requires
        n <= m <= entries.len(),
        settings_upto(entries, n, path) is Err,
    ensures
        settings_upto(entries, m, path) == settings_upto(entries, n, path),
    decreases m,
{
    if n < m {
        settings_error_stays(entries, n, (m - 1) as nat, path);
    }
}

/// The message for a file that holds ERB.
pub open spec fn erb_message(path: Seq<char>) -> Seq<char> {
    path
        + ": ERB is not supported. This config format is plain YAML and never executes code. Run `i18n-tasks-rs migrate-config` to convert this file."@
}

/// The configuration that the source stands for, where `parsed` is the YAML
/// document in it, or the first error.
pub open spec fn parsed_config(
    src: Seq<char>,
    parsed: Result<Option<NodeV>, Seq<char>>,
    path: Seq<char>,
) -> Result<ConfigV, Seq<char>> {
    if has_text(src, "<%"@) {
        Err(erb_message(path))
    } else {
        match parsed {
            Err(e) => Err(e),
            Ok(None) => Err(path + ": config is empty"@),
            Ok(Some(node)) => match node.entries() {
                None => Err(path + ": config must be a YAML mapping"@),
                Some(entries) => settings_upto(entries, entries.len(), path),
            },
        }
    }
}

/// What a parse of a YAML source gave.
pub open spec fn document(parsed: &Result<Option<Node>, String>) -> Result<
    Option<NodeV>,
    Seq<char>,
> {
    match parsed {
        Ok(Some(node)) => Ok(Some(node@)),
        Ok(None) => Ok(None),
        Err(e) => Err(e@),
    }
}

impl Config {
    fn defaults(root: &str) -> (cfg: Config)
        ensures
            cfg@ == default_config(),
            cfg.root@ == root@,
    {
        let mut write: Vec<WriteRule> = Vec::new();
        write.push(WriteRule { pattern: None, path: "config/locales/%{locale}.yml".to_owned() });
        assert(rules_model(write@) =~= default_config().data.write);
        Config {
            base_locale: "en".to_owned(),
            locales: None,
            data: DataConfig {
                read: one_text("config/locales/%{locale}.yml"),
                write,
                external: no_texts(),
                router: Router::Conservative,
                keep_order: false,
            },
            search: SearchConfig {
                paths: one_text("app/"),
                exclude: no_texts(),
                only: None,
                relative_roots: default_relative_roots(),
                relative_exclude_method_name_paths: no_texts(),
            },
            ignore: no_texts(),
            ignore_missing: IgnoreSpec::Empty,
            ignore_unused: IgnoreSpec::Empty,
            ignore_eq_base: IgnoreSpec::Empty,
            ignore_inconsistent_interpolations: IgnoreSpec::Empty,
            digest: String::new(),
            root: root.to_owned(),
        }
    }

    /// Reads the configuration that `src` holds; `parsed` is the YAML document
    /// in it. The source may not hold `<%`, must be a mapping, and may name no
    /// setting that the tool does not have, nor give one a value of the wrong
    /// kind.
    pub fn parse(src: &str, parsed: Result<Option<Node>, String>, path: &str, root: &str) -> (r:
        Result<Config, String>)
        ensures
            match r {
                Ok(cfg) => {
                    &&& parsed_config(src@, document(&parsed), path@) == Ok::<ConfigV, Seq<char>>(
                        cfg@,
                    )
                    &&& cfg.digest@ == digest_of(cfg@)
                    &&& cfg.root@ == root@
                },
                Err(e) => parsed_config(src@, document(&parsed), path@) == Err::<
                    ConfigV,
                    Seq<char>,
                >(e@),
            },
    {
        if contains(src, "<%") {
            return Err(
                concat(
                    path,
                    ": ERB is not supported. This config format is plain YAML and never executes code. Run `i18n-tasks-rs migrate-config` to convert this file.",
                ),
            );
        }
        match &parsed {
            Err(e) => Err(e.clone()),
            Ok(None) => Err(concat(path, ": config is empty")),
            Ok(Some(node)) => match node.as_map() {
                None => Err(concat(path, ": config must be a YAML mapping")),
                Some(entries) => {
                    let ghost model = entries_model(entries@);
                    let mut cfg = Config::defaults(root);
                    let mut i: usize = 0;
                    while i < entries.len()
                        invariant
                            i <= entries.len(),
                            model == entries_model(entries@),
                            !has_text(src@, "<%"@),
                            document(&parsed) == Ok::<Option<NodeV>, Seq<char>>(Some(node@)),
                            node@.entries() == Some(model),
                            settings_upto(model, i as nat, path@) == Ok::<ConfigV, Seq<char>>(
                                cfg@,
                            ),
                            cfg.root@ == root@,
                        decreases entries.len() - i,
                    {
                        let entry = &entries[i];
                        assert(model[i as int] == (entry.0@, entry.1@));
                        match entry.0.as_str() {
                            None => {
                                proof {
                                    settings_error_stays(
                                        model,
                                        (i + 1) as nat,
                                        model.len(),
                                        path@,
                                    );
                                }
                                return Err(concat(path, ": non-string config key"));
                            },
                            Some(key) => match apply_setting(&mut cfg, key, &entry.1, path) {
                                Ok(_) => {},
                                Err(e) => {
                                    proof {
                                        settings_error_stays(
                                            model,
                                            (i + 1) as nat,
                                            model.len(),
                                            path@,
                                        );
                                    }
                                    return Err(e);
                                },
                            },
                        }
                        i = i + 1;
                    }
                    let digest = cfg.compute_digest();
                    cfg.digest = digest;
                    Ok(cfg)
                },
            },
        }
    }

    /// Compiles the pattern set for one ignore type and locale. The global
    /// `ignore` list is merged into every type.
    pub fn ignore_patterns(&self, ty: IgnoreType, locale: Option<&str>) -> (set: PatternSet)
        ensures
            set@ == self@.ignored(ty, text_in(locale)),
    {
        let own = match ty {
            IgnoreType::Missing => self.ignore_missing.resolve(locale),
            IgnoreType::Unused => self.ignore_unused.resolve(locale),
            IgnoreType::EqBase => self.ignore_eq_base.resolve(locale),
            IgnoreType::InconsistentInterpolations => self.ignore_inconsistent_interpolations.resolve(
                locale,
            ),
        };
        let mut patterns = clone_texts(&self.ignore);
        extend_texts(&mut patterns, &own);
        PatternSet::new(&patterns)
    }

    /// The same configuration without an ignore rule.
    pub fn without_ignore_rules(&self) -> (bare: Config)
        ensures
            bare@ == self@.without_rules(),
            bare.root@ == self.root@,
            bare.digest@ == self.digest@,
    {
        let mut write: Vec<WriteRule> = Vec::new();
        let mut i: usize = 0;
        while i < self.data.write.len()
            invariant
                i <= self.data.write.len(),
                write.len() == i,
                forall|j: int| 0 <= j < i ==> (#[trigger] write@[j])@ == self.data.write@[j]@,
            decreases self.data.write.len() - i,
        {
            let rule = &self.data.write[i];
            write.push(
                WriteRule {
                    pattern: match &rule.pattern {
                        Some(p) => Some(p.clone()),
                        None => None,
                    },
                    path: rule.path.clone(),
                },
            );
            i = i + 1;
        }
        let bare = Config {
            base_locale: self.base_locale.clone(),
            locales: clone_optional(&self.locales),
            data: DataConfig {
                read: clone_texts(&self.data.read),
                write,
                external: clone_texts(&self.data.external),
                router: self.data.router,
                keep_order: self.data.keep_order,
            },
            search: SearchConfig {
                paths: clone_texts(&self.search.paths),
                exclude: clone_texts(&self.search.exclude),
                only: clone_optional(&self.search.only),
                relative_roots: clone_texts(&self.search.relative_roots),
                relative_exclude_method_name_paths: clone_texts(
                    &self.search.relative_exclude_method_name_paths,
                ),
            },
            ignore: Vec::new(),
            ignore_missing: IgnoreSpec::Empty,
            ignore_unused: IgnoreSpec::Empty,
            ignore_eq_base: IgnoreSpec::Empty,
            ignore_inconsistent_interpolations: IgnoreSpec::Empty,
            digest: self.digest.clone(),
            root: self.root.clone(),
        };
        assert(rules_model(bare.data.write@) =~= rules_model(self.data.write@));
        assert(texts(bare.ignore@) =~= Seq::empty());
        bare
    }

    fn compute_digest(&self) -> (out: String)
        ensures
            out@ == digest_of(self@),
    {
        let mut out = concat("base_locale=", &self.base_locale);
        out.append("\ndata.external=");
        out.append(&debug_list(&self.data.external));
        out.append("\ndata.keep_order=");
        out.append(&show_bool(self.data.keep_order));
        out.append("\ndata.read=");
        out.append(&debug_list(&self.data.read));
        out.append("\ndata.router=");
        out.append(
            match self.data.router {
                Router::Conservative => "Conservative",
                Router::Pattern => "Pattern",
            },
        );
        out.append("\ndata.write=");
        out.append(&debug_rules(&self.data.write));
        out.append("\nignore=");
        out.append(&debug_list(&self.ignore));
        out.append("\nignore_eq_base=");
        out.append(&debug_ignore(&self.ignore_eq_base));
        out.append("\nignore_inconsistent_interpolations=");
        out.append(&debug_ignore(&self.ignore_inconsistent_interpolations));
        out.append("\nignore_missing=");
        out.append(&debug_ignore(&self.ignore_missing));
        out.append("\nignore_unused=");
        out.append(&debug_ignore(&self.ignore_unused));
        out.append("\nlocales=");
        out.append(&debug_option(&self.locales));
        out.append("\nsearch=");
        out.append(&debug_search(&self.search));
        hex(fnv1a64(&out))
    }
}

// ------------------------------------------------------------------- the digest

/// The texts as `Debug` shows them in a list.
pub open spec fn debug_each(v: Seq<Seq<char>>) -> Seq<Seq<char>> {
    Seq::new(v.len(), |i: int| debug_of(v[i]))
}

/// A list of texts as `Debug` shows it.
pub open spec fn debug_list_of(v: Seq<Seq<char>>) -> Seq<char> {
    "["@ + join_of(debug_each(v), ", "@) + "]"@
}

pub(crate) fn debug_list(v: &Vec<String>) -> (out: String)
    ensures
        out@ == debug_list_of(texts(v@)),
{
    let mut parts: Vec<String> = Vec::new();
    let mut i: usize = 0;
    while i < v.len()
        invariant
            i <= v.len(),
            parts.len() == i,
            forall|j: int| 0 <= j < i ==> #[trigger] parts@[j]@ == debug_of(v@[j]@),
        decreases v.len() - i,
    {
        parts.push(debug_text(&v[i]));
        i = i + 1;
    }
    assert(texts(parts@) =~= debug_each(texts(v@)));
    concat(&concat("[", &join(&parts, ", ")), "]")
}

/// An optional list as `Debug` shows it.
pub open spec fn debug_option_of(v: Option<Seq<Seq<char>>>) -> Seq<char> {
    match v {
        None => "None"@,
        Some(v) => "Some("@ + debug_list_of(v) + ")"@,
    }
}

fn debug_option(v: &Option<Vec<String>>) -> (out: String)
    ensures
        out@ == debug_option_of(texts_in(*v)),
{
    match v {
        None => "None".to_owned(),
        Some(v) => concat(&concat("Some(", &debug_list(v)), ")"),
    }
}

/// A write rule as `Debug` shows it.
pub open spec fn debug_rule_of(rule: WriteRuleV) -> Seq<char> {
    "WriteRule { pattern: "@ + match rule.pattern {
        None => "None"@,
        Some(p) => "Some("@ + debug_of(p) + ")"@,
    } + ", path: "@ + debug_of(rule.path) + " }"@
}

/// Each write rule as `Debug` shows it.
pub open spec fn debug_each_rule(v: Seq<WriteRuleV>) -> Seq<Seq<char>> {
    Seq::new(v.len(), |i: int| debug_rule_of(v[i]))
}

fn debug_rules(v: &Vec<WriteRule>) -> (out: String)
    ensures
        out@ == "["@ + join_of(debug_each_rule(rules_model(v@)), ", "@) + "]"@,
{
    let mut parts: Vec<String> = Vec::new();
    let mut i: usize = 0;
    while i < v.len()
        invariant
            i <= v.len(),
            parts.len() == i,
            forall|j: int| 0 <= j < i ==> #[trigger] parts@[j]@ == debug_rule_of(v@[j]@),
        decreases v.len() - i,
    {
        let rule = &v[i];
        let mut part = "WriteRule { pattern: ".to_owned();
        match &rule.pattern {
            None => {
                part.append("None");
            },
            Some(p) => {
                let shown = concat(&concat("Some(", &debug_text(p)), ")");
                part.append(&shown);
            },
        }
        part.append(", path: ");
        part.append(&debug_text(&rule.path));
        part.append(" }");
        assert(part@ =~= debug_rule_of(rule@));
        parts.push(part);
        i = i + 1;
    }
    assert(texts(parts@) =~= debug_each_rule(rules_model(v@)));
    concat(&concat("[", &join(&parts, ", ")), "]")
}

/// Each group of ignore patterns as `Debug` shows it.
pub open spec fn debug_each_group(v: Seq<(Seq<Seq<char>>, Seq<Seq<char>>)>) -> Seq<Seq<char>> {
    Seq::new(
        v.len(),
        |i: int| "("@ + debug_list_of(v[i].0) + ", "@ + debug_list_of(v[i].1) + ")"@,
    )
}

/// An ignore setting as `Debug` shows it.
pub open spec fn debug_ignore_of(spec: IgnoreV) -> Seq<char> {
    match spec {
        IgnoreV::Empty => "Empty"@,
        IgnoreV::All(v) => "All("@ + debug_list_of(v) + ")"@,
        IgnoreV::PerLocale(groups) => "PerLocale(["@ + join_of(debug_each_group(groups), ", "@)
            + "])"@,
    }
}

fn debug_ignore(spec: &IgnoreSpec) -> (out: String)
    ensures
        out@ == debug_ignore_of(spec@),
{
    match spec {
        IgnoreSpec::Empty => "Empty".to_owned(),
        IgnoreSpec::All(v) => concat(&concat("All(", &debug_list(v)), ")"),
        IgnoreSpec::PerLocale(groups) => {
            let ghost model = groups_model(groups@);
            let mut parts: Vec<String> = Vec::new();
            let mut i: usize = 0;
            while i < groups.len()
                invariant
                    i <= groups.len(),
                    model == groups_model(groups@),
                    parts.len() == i,
                    forall|j: int|
                        0 <= j < i ==> #[trigger] parts@[j]@ == debug_each_group(model)[j],
                decreases groups.len() - i,
            {
                let group = &groups[i];
                let mut part = "(".to_owned();
                part.append(&debug_list(&group.0));
                part.append(", ");
                part.append(&debug_list(&group.1));
                part.append(")");
                parts.push(part);
                i = i + 1;
            }
            assert(texts(parts@) =~= debug_each_group(model));
            concat(&concat("PerLocale([", &join(&parts, ", ")), "])")
        },
    }
}

/// The search settings as `Debug` shows them.
pub open spec fn debug_search_of(s: SearchV) -> Seq<char> {
    "SearchConfig { paths: "@ + debug_list_of(s.paths) + ", exclude: "@ + debug_list_of(s.exclude)
        + ", only: "@ + debug_option_of(s.only) + ", relative_roots: "@ + debug_list_of(
        s.relative_roots,
    ) + ", relative_exclude_method_name_paths: "@ + debug_list_of(
        s.relative_exclude_method_name_paths,
    ) + " }"@
}

fn debug_search(s: &SearchConfig) -> (out: String)
    ensures
        out@ == debug_search_of(s@),
{
    let mut out = concat("SearchConfig { paths: ", &debug_list(&s.paths));
    out.append(", exclude: ");
    out.append(&debug_list(&s.exclude));
    out.append(", only: ");
    out.append(&debug_option(&s.only));
    out.append(", relative_roots: ");
    out.append(&debug_list(&s.relative_roots));
    out.append(", relative_exclude_method_name_paths: ");
    out.append(&debug_list(&s.relative_exclude_method_name_paths));
    out.append(" }");
    out
}

/// The settings in a fixed order, one per line, which does not depend on the
/// layout of the file.
pub open spec fn digest_text(cfg: ConfigV) -> Seq<char> {
    "base_locale="@ + cfg.base_locale + "\ndata.external="@ + debug_list_of(cfg.data.external)
        + "\ndata.keep_order="@ + bool_text(cfg.data.keep_order) + "\ndata.read="@ + debug_list_of(
        cfg.data.read,
    ) + "\ndata.router="@ + match cfg.data.router {
        Router::Conservative => "Conservative"@,
        Router::Pattern => "Pattern"@,
    } + "\ndata.write="@ + ("["@ + join_of(debug_each_rule(cfg.data.write), ", "@) + "]"@)
        + "\nignore="@ + debug_list_of(cfg.ignore) + "\nignore_eq_base="@ + debug_ignore_of(
        cfg.ignore_eq_base,
    ) + "\nignore_inconsistent_interpolations="@ + debug_ignore_of(
        cfg.ignore_inconsistent_interpolations,
    ) + "\nignore_missing="@ + debug_ignore_of(cfg.ignore_missing) + "\nignore_unused="@
        + debug_ignore_of(cfg.ignore_unused) + "\nlocales="@ + debug_option_of(cfg.locales)
        + "\nsearch="@ + debug_search_of(cfg.search)
}

/// The 64-bit FNV-1a hash of the first `n` bytes.
pub open spec fn fnv1a64_of(bytes: Seq<u8>, n: int) -> u64
    decreases n,
{
    if n <= 0 {
        0xcbf2_9ce4_8422_2325
    } else {
        (fnv1a64_of(bytes, n - 1) ^ (bytes[n - 1] as u64)).wrapping_mul(0x1000_0000_01b3)
    }
}

fn fnv1a64(text: &str) -> (h: u64)
    ensures
        h == fnv1a64_of(encode_utf8(text@), encode_utf8(text@).len() as int),
{
    let bytes = text.as_bytes();
    let mut h: u64 = 0xcbf2_9ce4_8422_2325;
    let mut i: usize = 0;
    while i < bytes.len()
        invariant
            i <= bytes.len(),
            h == fnv1a64_of(bytes@, i as int),
        decreases bytes.len() - i,
    {
        h = (h ^ (bytes[i] as u64)).wrapping_mul(0x1000_0000_01b3);
        i = i + 1;
    }
    h
}

/// A hexadecimal digit.
pub open spec fn hex_digit(d: int) -> char {
    if d < 10 {
        (48 + d) as char
    } else {
        (87 + d) as char
    }
}

/// The last `n` hexadecimal digits of `h`.
pub open spec fn hex_of(h: int, n: nat) -> Seq<char>
    decreases n,
{
    if n == 0 {
        Seq::empty()
    } else {
        hex_of(h / 16, (n - 1) as nat).push(hex_digit(h % 16))
    }
}

pub(crate) fn hex_digits(h: u64, n: usize) -> (out: String)
    ensures
        out@ == hex_of(h as int, n as nat),
    decreases n,
{
    if n == 0 {
        let out = String::new();
        assert(out@ =~= Seq::empty());
        out
    } else {
        let mut out = hex_digits(h / 16, n - 1);
        let d: u8 = (h % 16) as u8;
        out.push(
            if d < 10 {
                (48 + d) as char
            } else {
                (87 + d) as char
            },
        );
        out
    }
}

fn hex(h: u64) -> (out: String)
    ensures
        out@ == hex_of(h as int, 16),
{
    hex_digits(h, 16)
}

/// The digest of a configuration: 16 hexadecimal digits.
pub open spec fn digest_of(cfg: ConfigV) -> Seq<char> {
    let bytes = encode_utf8(digest_text(cfg));
    hex_of(fnv1a64_of(bytes, bytes.len() as int) as int, 16)
}

} // verus!
