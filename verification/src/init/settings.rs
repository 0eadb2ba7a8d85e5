//! The settings of a generated config: what its document holds, and that they
//! are read back as they were detected.
use crate::config::{
    context, data_section, default_config, parsed_config, search_section, settings_upto,
    str_list_of, text_or_empty, with_data_setting, with_search_setting, with_setting,
    write_rules_of, write_rules_upto, ConfigV, DataV, SearchV, WriteRuleV,
};
use crate::digest::{data_names_differ, search_names_differ, setting_names_differ};
use crate::init::detect::DetectedV;
use crate::text::has_text;
use crate::yaml::NodeV;
use vstd::prelude::*;

verus! {

/// A text as a node.
pub open spec fn text_node(s: Seq<char>) -> NodeV {
    NodeV::Scalar { value: s, plain: true, line: 0 }
}

/// A list of texts as a node.
pub open spec fn list_node(v: Seq<Seq<char>>) -> NodeV {
    NodeV::List { items: Seq::new(v.len(), |i: int| text_node(v[i])), line: 0 }
}

/// The section `data` as a node.
pub open spec fn data_node(d: DetectedV) -> NodeV {
    NodeV::Mapping {
        entries: seq![
            (text_node("read"@), list_node(d.read)),
            (text_node("write"@), list_node(seq![d.write])),
        ],
        line: 0,
    }
}

/// The section `search` as a node. A list of excluded directories is written
/// where there are any.
pub open spec fn search_node(d: DetectedV) -> NodeV {
    let paths = (text_node("paths"@), list_node(d.search_paths));
    let exclude = (text_node("exclude"@), list_node(d.exclude));
    let roots = (text_node("relative_roots"@), list_node(d.relative_roots));
    NodeV::Mapping {
        entries: if d.exclude.len() == 0 {
            seq![paths, roots]
        } else {
            seq![paths, exclude, roots]
        },
        line: 0,
    }
}

/// The document of a generated config.
pub open spec fn generated_node(d: DetectedV) -> NodeV {
    NodeV::Mapping {
        entries: seq![
            (text_node("base_locale"@), text_node(d.base_locale)),
            (text_node("data"@), data_node(d)),
            (text_node("search"@), search_node(d)),
        ],
        line: 0,
    }
}

/// The configuration that was detected: what a config without a setting stands
/// for, but for the settings that are written.
pub open spec fn detected_config(d: DetectedV) -> ConfigV {
    let default = default_config();
    ConfigV {
        base_locale: d.base_locale,
        data: DataV {
            read: d.read,
            write: seq![WriteRuleV { pattern: None, path: d.write }],
            ..default.data
        },
        search: SearchV {
            paths: d.search_paths,
            exclude: d.exclude,
            relative_roots: d.relative_roots,
            ..default.search
        },
        ..default
    }
}

proof fn a_list_is_read(v: Seq<Seq<char>>, c: Seq<char>)
    ensures
        str_list_of(list_node(v), c) == Ok::<Seq<Seq<char>>, Seq<char>>(v),
{
    let items = list_node(v)->items;
    assert forall|i: int| 0 <= i < items.len() implies (#[trigger] items[i]).text() == Some(
        v[i],
    ) by {}
    assert(Seq::new(items.len(), |i: int| items[i].text()->Some_0) =~= v);
}

proof fn the_data_section_is_read(d: DetectedV, path: Seq<char>)
    ensures
        data_section(default_config().data, data_node(d).entries()->Some_0, 2, path) == Ok::<
            DataV,
            Seq<char>,
        >(detected_config(d).data),
{
    let entries = data_node(d).entries()->Some_0;
    let start = default_config().data;
    data_names_differ();
    a_list_is_read(d.read, context(path, "data."@ + "read"@));
    let c = context(path, "data."@ + "write"@);
    let items = list_node(seq![d.write])->items;
    assert(items.len() == 1 && items[0] == text_node(d.write));
    assert(write_rules_upto(items, 0, c) == Ok::<Seq<WriteRuleV>, Seq<char>>(Seq::empty()));
    assert(write_rules_upto(items, 1, c)->Ok_0 =~= detected_config(d).data.write);
    assert(write_rules_of(list_node(seq![d.write]), c) == Ok::<Seq<WriteRuleV>, Seq<char>>(
        detected_config(d).data.write,
    ));
    let first = DataV { read: d.read, ..start };
    assert(text_or_empty(entries[0].0) == "read"@ && text_or_empty(entries[1].0) == "write"@);
    assert(data_section(start, entries, 0, path) == Ok::<DataV, Seq<char>>(start));
    assert(with_data_setting(start, "read"@, entries[0].1, path) == Ok::<DataV, Seq<char>>(first));
    assert(data_section(start, entries, 1, path) == Ok::<DataV, Seq<char>>(first));
    assert(with_data_setting(first, "write"@, entries[1].1, path) == Ok::<DataV, Seq<char>>(
        detected_config(d).data,
    ));
}

proof fn the_search_section_is_read(d: DetectedV, path: Seq<char>)
    ensures
        ({
            let entries = search_node(d).entries()->Some_0;
            search_section(default_config().search, entries, entries.len(), path) == Ok::<
                SearchV,
                Seq<char>,
            >(detected_config(d).search)
        }),
{
    let entries = search_node(d).entries()->Some_0;
    let start = default_config().search;
    let want = detected_config(d).search;
    search_names_differ();
    a_list_is_read(d.search_paths, context(path, "search."@ + "paths"@));
    a_list_is_read(d.exclude, context(path, "search."@ + "exclude"@));
    a_list_is_read(d.relative_roots, context(path, "search."@ + "relative_roots"@));
    let first = SearchV { paths: d.search_paths, ..start };
    let second = SearchV { exclude: d.exclude, ..first };
    assert(search_section(start, entries, 0, path) == Ok::<SearchV, Seq<char>>(start));
    assert(text_or_empty(entries[0].0) == "paths"@);
    assert(with_search_setting(start, "paths"@, entries[0].1, path) == Ok::<SearchV, Seq<char>>(
        first,
    ));
    assert(search_section(start, entries, 1, path) == Ok::<SearchV, Seq<char>>(first));
    if d.exclude.len() == 0 {
        assert(d.exclude =~= start.exclude);
        assert(text_or_empty(entries[1].0) == "relative_roots"@);
        assert(with_search_setting(first, "relative_roots"@, entries[1].1, path) == Ok::<
            SearchV,
            Seq<char>,
        >(want));
        assert(search_section(start, entries, 2, path) == Ok::<SearchV, Seq<char>>(want));
    } else {
        assert(text_or_empty(entries[1].0) == "exclude"@);
        assert(with_search_setting(first, "exclude"@, entries[1].1, path) == Ok::<
            SearchV,
            Seq<char>,
        >(second));
        assert(search_section(start, entries, 2, path) == Ok::<SearchV, Seq<char>>(second));
        assert(text_or_empty(entries[2].0) == "relative_roots"@);
        assert(with_search_setting(second, "relative_roots"@, entries[2].1, path) == Ok::<
            SearchV,
            Seq<char>,
        >(want));
        assert(search_section(start, entries, 3, path) == Ok::<SearchV, Seq<char>>(want));
    }
}

/// The document of a generated config is read as the settings that were
/// detected, and the defaults for the others.
pub proof fn a_generated_config_gives_the_detected_settings(
    d: DetectedV,
    src: Seq<char>,
    path: Seq<char>,
)
    requires
        !has_text(src, "<%"@),
    ensures
        parsed_config(src, Ok(Some(generated_node(d))), path) == Ok::<ConfigV, Seq<char>>(
            detected_config(d),
        ),
{
    let entries = generated_node(d).entries()->Some_0;
    let start = default_config();
    setting_names_differ();
    the_data_section_is_read(d, path);
    the_search_section_is_read(d, path);
    let first = ConfigV { base_locale: d.base_locale, ..start };
    let second = ConfigV { data: detected_config(d).data, ..first };
    assert(settings_upto(entries, 0, path) == Ok::<ConfigV, Seq<char>>(start));
    assert(entries[0].0.text() == Some("base_locale"@));
    assert(with_setting(start, "base_locale"@, entries[0].1, path) == Ok::<ConfigV, Seq<char>>(
        first,
    ));
    assert(settings_upto(entries, 1, path) == Ok::<ConfigV, Seq<char>>(first));
    assert(entries[1].0.text() == Some("data"@));
    assert(with_setting(first, "data"@, entries[1].1, path) == Ok::<ConfigV, Seq<char>>(second));
    assert(settings_upto(entries, 2, path) == Ok::<ConfigV, Seq<char>>(second));
    assert(entries[2].0.text() == Some("search"@));
    assert(with_setting(second, "search"@, entries[2].1, path) == Ok::<ConfigV, Seq<char>>(
        detected_config(d),
    ));
    assert(settings_upto(entries, 3, path) == Ok::<ConfigV, Seq<char>>(detected_config(d)));
}

} // verus!
