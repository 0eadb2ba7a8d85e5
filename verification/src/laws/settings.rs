//! What the settings of a config file set.
use crate::config::{
    context, data_section, default_config, group_names, groups_upto, ignore_spec_of, parsed_config,
    search_section, settings_upto, str_list_of, text_or_empty, with_data_setting,
    with_search_setting, with_setting, write_rules_upto, ConfigV, DataV, IgnoreV, Router, SearchV,
    WriteRuleV,
};
use crate::digest::{data_names_differ, search_names_differ, setting_names_differ};
use crate::migrate::decide::decision;
use crate::text::{has_text, split_of, trim_of};
use crate::yaml::{null_scalar, NodeV};
use vstd::prelude::*;

verus! {

// ----------------------------------------------------------------- reading values

/// The node holds the texts: a list of them, or a single one alone.
pub open spec fn holds_texts(node: NodeV, v: Seq<Seq<char>>) -> bool {
    match node {
        NodeV::Scalar { value, .. } => v == seq![value],
        NodeV::List { items, .. } => v.len() == items.len() && forall|i: int|
            0 <= i < v.len() ==> (#[trigger] items[i]).text() == Some(v[i]),
        NodeV::Mapping { .. } => false,
    }
}

/// The group is named for the locale: the locale stands in it between commas,
/// with any white space around it.
pub open spec fn group_names_locale(raw: Seq<char>, locale: Seq<char>) -> bool {
    locale.len() > 0 && exists|i: int|
        0 <= i < split_of(raw, ',').len() && trim_of(#[trigger] split_of(raw, ',')[i]) == locale
}

/// The node holds the ignore rules: a list of patterns, or one list per group
/// of locales.
pub open spec fn holds_rules(node: NodeV, own: IgnoreV) -> bool {
    match node {
        NodeV::Mapping { entries, .. } => match own {
            IgnoreV::PerLocale(groups) => groups.len() == entries.len() && forall|i: int|
                0 <= i < groups.len() ==> holds_group(
                    (#[trigger] entries[i]).0,
                    entries[i].1,
                    groups[i],
                ),
            _ => false,
        },
        _ => match own {
            IgnoreV::All(v) => holds_texts(node, v),
            _ => false,
        },
    }
}

/// The key and the value hold the group.
pub open spec fn holds_group(
    key: NodeV,
    value: NodeV,
    group: (Seq<Seq<char>>, Seq<Seq<char>>),
) -> bool {
    &&& key.text() is Some
    &&& holds_texts(value, group.1)
    &&& forall|l: Seq<char>| #[trigger]
        group.0.contains(l) <==> group_names_locale(key.text()->Some_0, l)
}

proof fn texts_are_read(node: NodeV, c: Seq<char>, v: Seq<Seq<char>>)
    ensures
        str_list_of(node, c) == Ok::<Seq<Seq<char>>, Seq<char>>(v) <==> holds_texts(node, v),
{
    if let NodeV::List { items, .. } = node {
        if holds_texts(node, v) {
            assert(Seq::new(items.len(), |i: int| items[i].text()->Some_0) =~= v);
        }
    }
}

proof fn names_of_a_group(parts: Seq<Seq<char>>, n: int, l: Seq<char>)
    requires
        0 <= n <= parts.len(),
    ensures
        group_names(parts, n).contains(l) <==> l.len() > 0 && exists|i: int|
            0 <= i < n && trim_of(#[trigger] parts[i]) == l,
    decreases n,
{
    if n > 0 {
        names_of_a_group(parts, n - 1, l);
        let before = group_names(parts, n - 1);
        let now = group_names(parts, n);
        let last = trim_of(parts[n - 1]);
        if now.len() > before.len() {
            assert(now[before.len() as int] == last);
            if before.contains(l) {
                assert(now[before.index_of(l)] == l);
            }
            if now.contains(l) && l != last {
                assert(before[now.index_of(l)] == l);
            }
        }
    }
}

proof fn groups_are_read(entries: Seq<(NodeV, NodeV)>, n: nat, c: Seq<char>)
    requires
        n <= entries.len(),
        groups_upto(entries, n, c) is Ok,
    ensures
        groups_upto(entries, n, c)->Ok_0.len() == n,
        forall|i: int|
            0 <= i < n ==> holds_group(
                (#[trigger] entries[i]).0,
                entries[i].1,
                groups_upto(entries, n, c)->Ok_0[i],
            ),
    decreases n,
{
    if n > 0 {
        groups_are_read(entries, (n - 1) as nat, c);
        let all = groups_upto(entries, n, c)->Ok_0;
        let before = groups_upto(entries, (n - 1) as nat, c)->Ok_0;
        let raw = entries[n - 1].0.text()->Some_0;
        assert forall|i: int| 0 <= i < n implies holds_group(
            (#[trigger] entries[i]).0,
            entries[i].1,
            all[i],
        ) by {
            if i < n - 1 {
                assert(all[i] == before[i]);
            } else {
                texts_are_read(entries[i].1, c, all[i].1);
                assert forall|l: Seq<char>| #[trigger] all[i].0.contains(l) <==> group_names_locale(
                    raw,
                    l,
                ) by {
                    names_of_a_group(split_of(raw, ','), split_of(raw, ',').len() as int, l);
                }
            }
        }
    }
}

proof fn rules_are_read(node: NodeV, c: Seq<char>)
    requires
        ignore_spec_of(node, c) is Ok,
    ensures
        holds_rules(node, ignore_spec_of(node, c)->Ok_0),
{
    match node {
        NodeV::Mapping { entries, .. } => {
            groups_are_read(entries, entries.len(), c);
        },
        _ => {
            texts_are_read(node, c, str_list_of(node, c)->Ok_0);
        },
    }
}

/// The node holds the rule of where a key is written: a path, or a key pattern
/// and a path.
pub open spec fn holds_write_rule(node: NodeV, rule: WriteRuleV) -> bool {
    match node {
        NodeV::Scalar { value, .. } => rule.pattern is None && rule.path == value,
        NodeV::List { items, .. } => items.len() == 2 && rule.pattern is Some && items[0].text()
            == rule.pattern && items[1].text() == Some(rule.path),
        NodeV::Mapping { .. } => false,
    }
}

/// The node holds the write rules: a list of them, or a single path alone.
pub open spec fn holds_write_rules(node: NodeV, rules: Seq<WriteRuleV>) -> bool {
    match node {
        NodeV::Scalar { .. } => rules.len() == 1 && holds_write_rule(node, rules[0]),
        NodeV::List { items, .. } => rules.len() == items.len() && forall|i: int|
            0 <= i < rules.len() ==> holds_write_rule(#[trigger] items[i], rules[i]),
        NodeV::Mapping { .. } => false,
    }
}

proof fn write_rules_are_read(items: Seq<NodeV>, n: nat, c: Seq<char>)
    requires
        n <= items.len(),
        write_rules_upto(items, n, c) is Ok,
    ensures
        write_rules_upto(items, n, c)->Ok_0.len() == n,
        forall|i: int|
            0 <= i < n ==> holds_write_rule(
                #[trigger] items[i],
                write_rules_upto(items, n, c)->Ok_0[i],
            ),
    decreases n,
{
    if n > 0 {
        write_rules_are_read(items, (n - 1) as nat, c);
        let before = write_rules_upto(items, (n - 1) as nat, c)->Ok_0;
        let all = write_rules_upto(items, n, c)->Ok_0;
        assert forall|i: int| 0 <= i < n implies holds_write_rule(#[trigger] items[i], all[i]) by {
            if i < n - 1 {
                assert(all[i] == before[i]);
            }
        }
    }
}

// ------------------------------------------------------------------ the top level

/// The names of the settings.
pub open spec fn setting_names() -> Seq<Seq<char>> {
    seq![
        "base_locale"@,
        "data"@,
        "ignore"@,
        "ignore_eq_base"@,
        "ignore_inconsistent_interpolations"@,
        "ignore_missing"@,
        "ignore_unused"@,
        "locales"@,
        "search"@,
    ]
}

/// What a setting of that name sets is read from the node, and nothing else
/// changes.
pub open spec fn sets(old: ConfigV, new: ConfigV, key: Seq<char>, node: NodeV) -> bool {
    &&& if key == "base_locale"@ {
        node.text() == Some(new.base_locale)
    } else {
        new.base_locale == old.base_locale
    }
    &&& if key == "locales"@ {
        new.locales is Some && holds_texts(node, new.locales->Some_0)
    } else {
        new.locales == old.locales
    }
    &&& if key == "ignore"@ {
        holds_texts(node, new.ignore)
    } else {
        new.ignore == old.ignore
    }
    &&& if key == "ignore_missing"@ {
        holds_rules(node, new.ignore_missing)
    } else {
        new.ignore_missing == old.ignore_missing
    }
    &&& if key == "ignore_unused"@ {
        holds_rules(node, new.ignore_unused)
    } else {
        new.ignore_unused == old.ignore_unused
    }
    &&& if key == "ignore_eq_base"@ {
        holds_rules(node, new.ignore_eq_base)
    } else {
        new.ignore_eq_base == old.ignore_eq_base
    }
    &&& if key == "ignore_inconsistent_interpolations"@ {
        holds_rules(node, new.ignore_inconsistent_interpolations)
    } else {
        new.ignore_inconsistent_interpolations == old.ignore_inconsistent_interpolations
    }
    &&& key != "data"@ ==> new.data == old.data
    &&& key != "search"@ ==> new.search == old.search
}

/// A setting sets what it is named for, as its value holds it, and nothing
/// else.
pub proof fn a_setting_sets_what_it_is_named_for(
    old: ConfigV,
    key: Seq<char>,
    node: NodeV,
    path: Seq<char>,
)
    requires
        with_setting(old, key, node, path) is Ok,
    ensures
        sets(old, with_setting(old, key, node, path)->Ok_0, key, node),
        setting_names().contains(key),
        key == "data"@ ==> node.entries() is Some && data_section(
            old.data,
            node.entries()->Some_0,
            node.entries()->Some_0.len(),
            path,
        ) == Ok::<DataV, Seq<char>>(with_setting(old, key, node, path)->Ok_0.data),
        key == "search"@ ==> node.entries() is Some && search_section(
            old.search,
            node.entries()->Some_0,
            node.entries()->Some_0.len(),
            path,
        ) == Ok::<SearchV, Seq<char>>(with_setting(old, key, node, path)->Ok_0.search),
{
    let c = context(path, key);
    let new = with_setting(old, key, node, path)->Ok_0;
    setting_names_differ();
    let v = setting_names();
    assert(v[0] == "base_locale"@ && v[1] == "data"@ && v[2] == "ignore"@ && v[3]
        == "ignore_eq_base"@ && v[4] == "ignore_inconsistent_interpolations"@ && v[5]
        == "ignore_missing"@ && v[6] == "ignore_unused"@ && v[7] == "locales"@ && v[8]
        == "search"@);
    if key == "locales"@ || key == "ignore"@ {
        texts_are_read(node, c, str_list_of(node, c)->Ok_0);
    }
    if key == "ignore_missing"@ || key == "ignore_unused"@ || key == "ignore_eq_base"@ || key
        == "ignore_inconsistent_interpolations"@ {
        rules_are_read(node, c);
    }
}

/// The entry is named so.
pub open spec fn named(entries: Seq<(NodeV, NodeV)>, i: int, name: Seq<char>) -> bool {
    0 <= i < entries.len() && entries[i].0.text() == Some(name)
}

/// The last of the first `n` entries with the name, -1 where there is none.
pub open spec fn is_last_named(
    entries: Seq<(NodeV, NodeV)>,
    n: int,
    name: Seq<char>,
    i: int,
) -> bool {
    &&& i < n
    &&& i == -1 || named(entries, i, name)
    &&& forall|j: int| i < j < n ==> !#[trigger] named(entries, j, name)
}

/// A file gives what the last entry of each name holds, the default where no
/// entry has the name, and it has no entry of another name.
pub proof fn the_last_entry_of_a_name_counts(
    entries: Seq<(NodeV, NodeV)>,
    n: nat,
    path: Seq<char>,
    i: int,
)
    requires
        n <= entries.len(),
        settings_upto(entries, n, path) is Ok,
    ensures
        ({
            let cfg = settings_upto(entries, n, path)->Ok_0;
            let none = default_config();
            &&& is_last_named(entries, n as int, "base_locale"@, i) ==> if i < 0 {
                cfg.base_locale == none.base_locale
            } else {
                entries[i].1.text() == Some(cfg.base_locale)
            }
            &&& is_last_named(entries, n as int, "locales"@, i) ==> if i < 0 {
                cfg.locales is None
            } else {
                cfg.locales is Some && holds_texts(entries[i].1, cfg.locales->Some_0)
            }
            &&& is_last_named(entries, n as int, "ignore"@, i) ==> if i < 0 {
                cfg.ignore.len() == 0
            } else {
                holds_texts(entries[i].1, cfg.ignore)
            }
            &&& is_last_named(entries, n as int, "ignore_missing"@, i) ==> if i < 0 {
                cfg.ignore_missing is Empty
            } else {
                holds_rules(entries[i].1, cfg.ignore_missing)
            }
            &&& is_last_named(entries, n as int, "ignore_unused"@, i) ==> if i < 0 {
                cfg.ignore_unused is Empty
            } else {
                holds_rules(entries[i].1, cfg.ignore_unused)
            }
            &&& is_last_named(entries, n as int, "ignore_eq_base"@, i) ==> if i < 0 {
                cfg.ignore_eq_base is Empty
            } else {
                holds_rules(entries[i].1, cfg.ignore_eq_base)
            }
            &&& is_last_named(entries, n as int, "ignore_inconsistent_interpolations"@, i) ==> if i
                < 0 {
                cfg.ignore_inconsistent_interpolations is Empty
            } else {
                holds_rules(entries[i].1, cfg.ignore_inconsistent_interpolations)
            }
            &&& is_last_named(entries, n as int, "data"@, i) && i < 0 ==> cfg.data == none.data
            &&& is_last_named(entries, n as int, "search"@, i) && i < 0 ==> cfg.search
                == none.search
        }),
        forall|j: int|
            0 <= j < n ==> (#[trigger] entries[j]).0.text() is Some && setting_names().contains(
                entries[j].0.text()->Some_0,
            ),
    decreases n,
{
    if n > 0 {
        let before = settings_upto(entries, (n - 1) as nat, path)->Ok_0;
        let key = entries[n - 1].0.text()->Some_0;
        a_setting_sets_what_it_is_named_for(before, key, entries[n - 1].1, path);
        the_last_entry_of_a_name_counts(entries, (n - 1) as nat, path, i);
        let m = n as int;
        shorter_last(entries, m, "base_locale"@, i);
        shorter_last(entries, m, "locales"@, i);
        shorter_last(entries, m, "ignore"@, i);
        shorter_last(entries, m, "ignore_missing"@, i);
        shorter_last(entries, m, "ignore_unused"@, i);
        shorter_last(entries, m, "ignore_eq_base"@, i);
        shorter_last(entries, m, "ignore_inconsistent_interpolations"@, i);
        shorter_last(entries, m, "data"@, i);
        shorter_last(entries, m, "search"@, i);
    }
}

proof fn shorter_last(entries: Seq<(NodeV, NodeV)>, n: int, name: Seq<char>, i: int)
    requires
        0 < n <= entries.len(),
        entries[n - 1].0.text() is Some,
    ensures
        is_last_named(entries, n, name, i) ==> if entries[n - 1].0.text() == Some(name) {
            i == n - 1
        } else {
            is_last_named(entries, n - 1, name, i)
        },
{
    if is_last_named(entries, n, name, i) {
        if entries[n - 1].0.text() == Some(name) && i != n - 1 {
            assert(named(entries, n - 1, name));
        }
    }
}

/// A file with a tag of a template language is refused, whatever it parses to.
pub proof fn a_file_with_a_tag_is_refused(
    src: Seq<char>,
    parsed: Result<Option<NodeV>, Seq<char>>,
    path: Seq<char>,
)
    requires
        has_text(src, "<%"@),
    ensures
        parsed_config(src, parsed, path) is Err,
{
}

// -------------------------------------------------------------------- the sections

/// What a setting of `data` sets is read from the node, and nothing else
/// changes.
pub open spec fn sets_data(old: DataV, new: DataV, key: Seq<char>, node: NodeV) -> bool {
    &&& if key == "read"@ {
        holds_texts(node, new.read)
    } else {
        new.read == old.read
    }
    &&& if key == "external"@ {
        holds_texts(node, new.external)
    } else {
        new.external == old.external
    }
    &&& if key == "write"@ {
        holds_write_rules(node, new.write)
    } else {
        new.write == old.write
    }
    &&& if key == "router"@ {
        &&& new.router == Router::Pattern ==> node.text() == Some("pattern_router"@)
        &&& new.router == Router::Conservative ==> node.text() == Some("conservative_router"@)
    } else {
        new.router == old.router
    }
    &&& if key == "keep_order"@ {
        node.text() is Some && (new.keep_order <==> node.text()->Some_0 == "true"@
            || node.text()->Some_0 == "yes"@ || node.text()->Some_0 == "on"@)
    } else {
        new.keep_order == old.keep_order
    }
}

/// A setting of `data` sets what it is named for, and nothing else.
pub proof fn a_data_setting_sets_what_it_is_named_for(
    old: DataV,
    key: Seq<char>,
    node: NodeV,
    path: Seq<char>,
)
    requires
        with_data_setting(old, key, node, path) is Ok,
    ensures
        sets_data(old, with_data_setting(old, key, node, path)->Ok_0, key, node),
        key == "read"@ || key == "write"@ || key == "external"@ || key == "router"@ || key
            == "keep_order"@,
{
    let c = context(path, "data."@ + key);
    data_names_differ();
    if key == "read"@ || key == "external"@ {
        texts_are_read(node, c, str_list_of(node, c)->Ok_0);
    }
    if key == "write"@ {
        if let NodeV::List { items, .. } = node {
            write_rules_are_read(items, items.len(), c);
        }
    }
    if key == "router"@ && node.text() is None {
        reveal_strlit("conservative_router");
        reveal_strlit("pattern_router");
        assert("conservative_router"@.len() > 0 && "pattern_router"@.len() > 0);
    }
}

/// What a setting of `search` sets is read from the node, and nothing else
/// changes.
pub open spec fn sets_search(old: SearchV, new: SearchV, key: Seq<char>, node: NodeV) -> bool {
    &&& if key == "paths"@ {
        holds_texts(node, new.paths)
    } else {
        new.paths == old.paths
    }
    &&& if key == "exclude"@ {
        holds_texts(node, new.exclude)
    } else {
        new.exclude == old.exclude
    }
    &&& if key == "only"@ {
        new.only is Some && holds_texts(node, new.only->Some_0)
    } else {
        new.only == old.only
    }
    &&& if key == "relative_roots"@ {
        holds_texts(node, new.relative_roots)
    } else {
        new.relative_roots == old.relative_roots
    }
    &&& if key == "relative_exclude_method_name_paths"@ {
        holds_texts(node, new.relative_exclude_method_name_paths)
    } else {
        new.relative_exclude_method_name_paths == old.relative_exclude_method_name_paths
    }
}

/// A setting of `search` sets what it is named for, and nothing else.
pub proof fn a_search_setting_sets_what_it_is_named_for(
    old: SearchV,
    key: Seq<char>,
    node: NodeV,
    path: Seq<char>,
)
    requires
        with_search_setting(old, key, node, path) is Ok,
    ensures
        sets_search(old, with_search_setting(old, key, node, path)->Ok_0, key, node),
        key == "paths"@ || key == "exclude"@ || key == "only"@ || key == "relative_roots"@ || key
            == "relative_exclude_method_name_paths"@,
{
    let c = context(path, "search."@ + key);
    search_names_differ();
    texts_are_read(node, c, str_list_of(node, c)->Ok_0);
}

/// Whatever the entries of `data` hold is set, in their order: each step sets
/// what its entry is named for.
pub proof fn every_data_entry_is_applied(
    data: DataV,
    entries: Seq<(NodeV, NodeV)>,
    n: nat,
    path: Seq<char>,
    i: int,
)
    requires
        0 <= i < n <= entries.len(),
        data_section(data, entries, n, path) is Ok,
    ensures
        data_section(data, entries, i as nat, path) is Ok,
        data_section(data, entries, (i + 1) as nat, path) is Ok,
        sets_data(
            data_section(data, entries, i as nat, path)->Ok_0,
            data_section(data, entries, (i + 1) as nat, path)->Ok_0,
            text_or_empty(entries[i].0),
            entries[i].1,
        ),
        data_section(data, entries, 0, path) == Ok::<DataV, Seq<char>>(data),
    decreases n,
{
    if i < n - 1 {
        every_data_entry_is_applied(data, entries, (n - 1) as nat, path, i);
    } else {
        let before = data_section(data, entries, i as nat, path)->Ok_0;
        a_data_setting_sets_what_it_is_named_for(
            before,
            text_or_empty(entries[i].0),
            entries[i].1,
            path,
        );
    }
}

/// Whatever the entries of `search` hold is set, in their order: each step sets
/// what its entry is named for.
pub proof fn every_search_entry_is_applied(
    search: SearchV,
    entries: Seq<(NodeV, NodeV)>,
    n: nat,
    path: Seq<char>,
    i: int,
)
    requires
        0 <= i < n <= entries.len(),
        search_section(search, entries, n, path) is Ok,
    ensures
        search_section(search, entries, i as nat, path) is Ok,
        search_section(search, entries, (i + 1) as nat, path) is Ok,
        sets_search(
            search_section(search, entries, i as nat, path)->Ok_0,
            search_section(search, entries, (i + 1) as nat, path)->Ok_0,
            text_or_empty(entries[i].0),
            entries[i].1,
        ),
        search_section(search, entries, 0, path) == Ok::<SearchV, Seq<char>>(search),
    decreases n,
{
    if i < n - 1 {
        every_search_entry_is_applied(search, entries, (n - 1) as nat, path, i);
    } else {
        let before = search_section(search, entries, i as nat, path)->Ok_0;
        a_search_setting_sets_what_it_is_named_for(
            before,
            text_or_empty(entries[i].0),
            entries[i].1,
            path,
        );
    }
}

/// What a file without settings stands for.
pub proof fn a_file_without_settings_stands_for_the_defaults()
    ensures
        ({
            let none = default_config();
            &&& none.base_locale == "en"@
            &&& none.data.read == seq!["config/locales/%{locale}.yml"@]
            &&& none.data.write.len() == 1
            &&& none.data.write[0].pattern is None
            &&& none.data.write[0].path == none.data.read[0]
            &&& none.data.external.len() == 0
            &&& none.data.router == Router::Conservative
            &&& !none.data.keep_order
            &&& none.search.paths == seq!["app/"@]
            &&& none.search.exclude.len() == 0
            &&& none.search.only is None
            &&& none.search.relative_exclude_method_name_paths.len() == 0
            &&& crate::laws::detect::usual_roots().to_set() == none.search.relative_roots.to_set()
        }),
{
    let v = default_config().search.relative_roots;
    let w = crate::laws::detect::usual_roots();
    assert(w[0] == v[4] && w[1] == v[3] && w[2] == v[2] && w[3] == v[1] && w[4] == v[0]);
    assert forall|x: Seq<char>| v.to_set().contains(x) == w.to_set().contains(x) by {
        if v.contains(x) {
            let i = v.index_of(x);
            assert(i == 0 || i == 1 || i == 2 || i == 3 || i == 4);
        }
        if w.contains(x) {
            let i = w.index_of(x);
            assert(i == 0 || i == 1 || i == 2 || i == 3 || i == 4);
        }
    }
    assert(v.to_set() =~= w.to_set());
}

// -------------------------------------------------------------------- the migration

/// A migration keeps a setting with a value exactly where the configuration
/// has one of that name, at the top level and in each section, and drops every
/// other with a reason. A setting without a value is always dropped.
pub proof fn a_migration_keeps_exactly_the_settings_that_exist(key: Seq<char>, value: NodeV)
    ensures
        null_scalar(value) ==> decision(key, value, None) is Drop && decision(
            key,
            value,
            Some("data"@),
        ) is Drop && decision(key, value, Some("search"@)) is Drop,
        !null_scalar(value) ==> {
            &&& decision(key, value, None) is Drop <==> !setting_names().contains(key)
            &&& decision(key, value, None) is Recurse <==> key == "data"@ || key == "search"@
            &&& decision(key, value, Some("search"@)) is Keep <==> key == "paths"@ || key
                == "exclude"@ || key == "only"@ || key == "relative_roots"@ || key
                == "relative_exclude_method_name_paths"@
            &&& decision(key, value, Some("data"@)) is Keep <==> key == "read"@ || key == "write"@
                || key == "external"@ || key == "keep_order"@ || (key == "router"@ && (value.text()
                == Some("conservative_router"@) || value.text() == Some("pattern_router"@)))
            &&& !(decision(key, value, Some("search"@)) is Recurse)
            &&& !(decision(key, value, Some("data"@)) is Recurse)
        },
{
    let v = setting_names();
    assert(v[0] == "base_locale"@ && v[1] == "data"@ && v[2] == "ignore"@ && v[3]
        == "ignore_eq_base"@ && v[4] == "ignore_inconsistent_interpolations"@ && v[5]
        == "ignore_missing"@ && v[6] == "ignore_unused"@ && v[7] == "locales"@ && v[8]
        == "search"@);
    setting_names_differ();
    reveal_strlit("data");
    reveal_strlit("search");
    assert("data"@.len() != "search"@.len());
    if v.contains(key) {
        let i = v.index_of(key);
        assert(i == 0 || i == 1 || i == 2 || i == 3 || i == 4 || i == 5 || i == 6 || i == 7 || i
            == 8);
    }
    data_names_differ();
    search_names_differ();
}

} // verus!
