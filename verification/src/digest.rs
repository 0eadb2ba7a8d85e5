//! The digest of a configuration: 16 hexadecimal digits that follow the
//! settings, and not the order in which they are written.
use crate::config::{
    context, data_section, default_config, digest_of, digest_text, fnv1a64_of, groups_upto,
    hex_digit, hex_of, ignore_spec_of, is_truthy, parsed_config, search_section, settings_upto,
    str_list_of, text_or_empty, with_data_setting, with_search_setting, with_setting, write_rule_of,
    write_rules_of, write_rules_upto, ConfigV, DataV, IgnoreV, Router, SearchV, WriteRuleV,
};
use crate::yaml::NodeV;
use vstd::prelude::*;
use vstd::utf8::encode_utf8;

verus! {

// ------------------------------------------------------------- what is written

/// Two nodes that differ in their lines at most.
pub open spec fn alike(a: NodeV, b: NodeV) -> bool
    decreases a,
{
    match (a, b) {
        (NodeV::Scalar { value: x, .. }, NodeV::Scalar { value: y, .. }) => x == y,
        (NodeV::List { items: x, .. }, NodeV::List { items: y, .. }) => x.len() == y.len()
            && forall|i: int| 0 <= i < x.len() ==> alike(#[trigger] x[i], y[i]),
        (NodeV::Mapping { entries: x, .. }, NodeV::Mapping { entries: y, .. }) => x.len()
            == y.len() && forall|i: int|
            0 <= i < x.len() ==> alike((#[trigger] x[i]).0, y[i].0) && alike(x[i].1, y[i].1),
        _ => false,
    }
}

/// The key stands at `i`.
pub open spec fn stands_under(entries: Seq<(NodeV, NodeV)>, key: Seq<char>, i: int) -> bool {
    0 <= i < entries.len() && entries[i].0.text() == Some(key)
}

/// The value under a key.
pub open spec fn under(entries: Seq<(NodeV, NodeV)>, key: Seq<char>) -> Option<NodeV> {
    if exists|i: int| stands_under(entries, key, i) {
        Some(entries[choose|i: int| stands_under(entries, key, i)].1)
    } else {
        None
    }
}

/// No key stands twice.
pub open spec fn keys_differ(entries: Seq<(NodeV, NodeV)>) -> bool {
    forall|i: int, j: int|
        0 <= i < j < entries.len() ==> (#[trigger] entries[i]).0.text() != (
        #[trigger] entries[j]).0.text()
}

/// The same value stands under the key, or none.
pub open spec fn same_under(
    a: Seq<(NodeV, NodeV)>,
    b: Seq<(NodeV, NodeV)>,
    key: Seq<char>,
) -> bool {
    match (under(a, key), under(b, key)) {
        (None, None) => true,
        (Some(x), Some(y)) => alike(x, y),
        _ => false,
    }
}

/// A section holds the same settings, in whatever order, or is missing.
pub open spec fn same_section(a: Option<NodeV>, b: Option<NodeV>, keys: Seq<Seq<char>>) -> bool {
    match (a, b) {
        (None, None) => true,
        (Some(x), Some(y)) => {
            &&& x.entries() is Some && y.entries() is Some
            &&& keys_differ(x.entries()->Some_0) && keys_differ(y.entries()->Some_0)
            &&& forall|i: int|
                0 <= i < keys.len() ==> same_under(
                    x.entries()->Some_0,
                    y.entries()->Some_0,
                    #[trigger] keys[i],
                )
        },
        _ => false,
    }
}

/// The settings that are no section.
pub open spec fn plain_settings() -> Seq<Seq<char>> {
    seq![
        "base_locale"@,
        "locales"@,
        "ignore"@,
        "ignore_missing"@,
        "ignore_unused"@,
        "ignore_eq_base"@,
        "ignore_inconsistent_interpolations"@,
    ]
}

/// The settings of `data`.
pub open spec fn data_settings() -> Seq<Seq<char>> {
    seq!["read"@, "write"@, "external"@, "router"@, "keep_order"@]
}

/// The settings of `search`.
pub open spec fn search_settings() -> Seq<Seq<char>> {
    seq![
        "paths"@,
        "exclude"@,
        "only"@,
        "relative_roots"@,
        "relative_exclude_method_name_paths"@,
    ]
}

/// Two configs hold the same settings, in whatever order and on whatever lines.
pub open spec fn same_settings(a: Seq<(NodeV, NodeV)>, b: Seq<(NodeV, NodeV)>) -> bool {
    &&& keys_differ(a) && keys_differ(b)
    &&& forall|i: int|
        0 <= i < plain_settings().len() ==> same_under(a, b, #[trigger] plain_settings()[i])
    &&& same_section(under(a, "data"@), under(b, "data"@), data_settings())
    &&& same_section(under(a, "search"@), under(b, "search"@), search_settings())
}

// ---------------------------------------------------------------- what is read

/// The list that is read, or the default.
spec fn list_read(
    n: Option<NodeV>,
    c: Seq<char>,
    v: Seq<Seq<char>>,
    default: Seq<Seq<char>>,
) -> bool {
    match n {
        None => v == default,
        Some(x) => str_list_of(x, c) == Ok::<Seq<Seq<char>>, Seq<char>>(v),
    }
}

/// The optional list that is read.
spec fn some_list_read(n: Option<NodeV>, c: Seq<char>, v: Option<Seq<Seq<char>>>) -> bool {
    match n {
        None => v is None,
        Some(x) => v is Some && str_list_of(x, c) == Ok::<Seq<Seq<char>>, Seq<char>>(v->Some_0),
    }
}

/// The ignore rules that are read.
spec fn ignore_read(n: Option<NodeV>, c: Seq<char>, v: IgnoreV) -> bool {
    match n {
        None => v == IgnoreV::Empty,
        Some(x) => ignore_spec_of(x, c) == Ok::<IgnoreV, Seq<char>>(v),
    }
}

/// The write rules that are read.
spec fn rules_read(n: Option<NodeV>, c: Seq<char>, v: Seq<WriteRuleV>) -> bool {
    match n {
        None => v == default_config().data.write,
        Some(x) => write_rules_of(x, c) == Ok::<Seq<WriteRuleV>, Seq<char>>(v),
    }
}

/// The router that is read.
spec fn router_read(n: Option<NodeV>, v: Router) -> bool {
    match n {
        None => v == Router::Conservative,
        Some(x) => text_or_empty(x) == match v {
            Router::Conservative => "conservative_router"@,
            Router::Pattern => "pattern_router"@,
        },
    }
}

/// The flag that is read.
spec fn flag_read(n: Option<NodeV>, v: bool) -> bool {
    match n {
        None => !v,
        Some(x) => v == is_truthy(x),
    }
}

/// The text that is read.
spec fn text_read(n: Option<NodeV>, v: Seq<char>) -> bool {
    match n {
        None => v == "en"@,
        Some(x) => x.text() == Some(v),
    }
}

/// `data` holds what stands under its keys.
spec fn data_by(entries: Seq<(NodeV, NodeV)>, d: DataV, path: Seq<char>) -> bool {
    let default = default_config().data;
    &&& list_read(under(entries, "read"@), context(path, "data."@ + "read"@), d.read, default.read)
    &&& rules_read(under(entries, "write"@), context(path, "data."@ + "write"@), d.write)
    &&& list_read(
        under(entries, "external"@),
        context(path, "data."@ + "external"@),
        d.external,
        default.external,
    )
    &&& router_read(under(entries, "router"@), d.router)
    &&& flag_read(under(entries, "keep_order"@), d.keep_order)
}

/// `search` holds what stands under its keys.
spec fn search_by(entries: Seq<(NodeV, NodeV)>, s: SearchV, path: Seq<char>) -> bool {
    let default = default_config().search;
    let roots = "relative_roots"@;
    let excluded = "relative_exclude_method_name_paths"@;
    &&& list_read(
        under(entries, "paths"@),
        context(path, "search."@ + "paths"@),
        s.paths,
        default.paths,
    )
    &&& list_read(
        under(entries, "exclude"@),
        context(path, "search."@ + "exclude"@),
        s.exclude,
        default.exclude,
    )
    &&& some_list_read(under(entries, "only"@), context(path, "search."@ + "only"@), s.only)
    &&& list_read(
        under(entries, roots),
        context(path, "search."@ + roots),
        s.relative_roots,
        default.relative_roots,
    )
    &&& list_read(
        under(entries, excluded),
        context(path, "search."@ + excluded),
        s.relative_exclude_method_name_paths,
        default.relative_exclude_method_name_paths,
    )
}

/// The `data` section that is read.
spec fn data_read(n: Option<NodeV>, v: DataV, path: Seq<char>) -> bool {
    match n {
        None => v == default_config().data,
        Some(x) => x.entries() is Some && data_section(
            default_config().data,
            x.entries()->Some_0,
            x.entries()->Some_0.len(),
            path,
        ) == Ok::<DataV, Seq<char>>(v),
    }
}

/// The `search` section that is read.
spec fn search_read(n: Option<NodeV>, v: SearchV, path: Seq<char>) -> bool {
    match n {
        None => v == default_config().search,
        Some(x) => x.entries() is Some && search_section(
            default_config().search,
            x.entries()->Some_0,
            x.entries()->Some_0.len(),
            path,
        ) == Ok::<SearchV, Seq<char>>(v),
    }
}

/// A configuration holds what stands under its keys.
spec fn config_by(entries: Seq<(NodeV, NodeV)>, cfg: ConfigV, path: Seq<char>) -> bool {
    let interpolations = "ignore_inconsistent_interpolations"@;
    &&& text_read(under(entries, "base_locale"@), cfg.base_locale)
    &&& some_list_read(under(entries, "locales"@), context(path, "locales"@), cfg.locales)
    &&& list_read(under(entries, "ignore"@), context(path, "ignore"@), cfg.ignore, Seq::empty())
    &&& ignore_read(
        under(entries, "ignore_missing"@),
        context(path, "ignore_missing"@),
        cfg.ignore_missing,
    )
    &&& ignore_read(
        under(entries, "ignore_unused"@),
        context(path, "ignore_unused"@),
        cfg.ignore_unused,
    )
    &&& ignore_read(
        under(entries, "ignore_eq_base"@),
        context(path, "ignore_eq_base"@),
        cfg.ignore_eq_base,
    )
    &&& ignore_read(
        under(entries, interpolations),
        context(path, interpolations),
        cfg.ignore_inconsistent_interpolations,
    )
    &&& data_read(under(entries, "data"@), cfg.data, path)
    &&& search_read(under(entries, "search"@), cfg.search, path)
}

// ------------------------------------------------------------- what is put last

/// With one more entry, its value stands under its key, and every other key
/// stands for what it stood for.
proof fn under_pushed(entries: Seq<(NodeV, NodeV)>, e: (NodeV, NodeV), key: Seq<char>)
    requires
        keys_differ(entries.push(e)),
    ensures
        e.0.text() == Some(key) ==> under(entries.push(e), key) == Some(e.1) && under(entries, key)
            is None,
        e.0.text() != Some(key) ==> under(entries.push(e), key) == under(entries, key),
{
    let all = entries.push(e);
    let n = entries.len() as int;
    assert(all[n] == e);
    assert forall|i: int| 0 <= i < n implies #[trigger] all[i] == entries[i] by {}
    assert forall|i: int| stands_under(entries, key, i) implies stands_under(all, key, i) by {
        assert(all[i] == entries[i]);
    }
    if e.0.text() == Some(key) {
        assert(stands_under(all, key, n));
        let i = choose|i: int| stands_under(all, key, i);
        assert(stands_under(all, key, i));
        if i < n {
            assert(all[i].0.text() != all[n].0.text());
        }
        if exists|j: int| stands_under(entries, key, j) {
            let j = choose|j: int| stands_under(entries, key, j);
            assert(all[j].0.text() != all[n].0.text());
        }
    } else {
        if exists|i: int| stands_under(all, key, i) {
            let i = choose|i: int| stands_under(all, key, i);
            assert(i < n);
            assert(all[i] == entries[i]);
            assert(stands_under(entries, key, i));
            let j = choose|j: int| stands_under(entries, key, j);
            assert(stands_under(entries, key, j));
            assert(stands_under(all, key, j));
            if i < j {
                assert(all[i].0.text() != all[j].0.text());
            }
            if j < i {
                assert(all[j].0.text() != all[i].0.text());
            }
        }
    }
}

proof fn front_keys_differ(entries: Seq<(NodeV, NodeV)>, n: int)
    requires
        0 < n <= entries.len(),
        keys_differ(entries),
    ensures
        keys_differ(entries.take(n)),
        keys_differ(entries.take(n - 1)),
        entries.take(n) == entries.take(n - 1).push(entries[n - 1]),
{
    assert(entries.take(n) =~= entries.take(n - 1).push(entries[n - 1]));
    assert forall|m: int| n - 1 <= m <= n implies keys_differ(#[trigger] entries.take(m)) by {
        let part = entries.take(m);
        assert forall|i: int, j: int| 0 <= i < j < part.len() implies (
        #[trigger] part[i]).0.text() != (#[trigger] part[j]).0.text() by {
            assert(part[i] == entries[i] && part[j] == entries[j]);
        }
    }
}

pub(crate) proof fn setting_names_differ()
    ensures
        "base_locale"@.len() == 11,
        "locales"@.len() == 7,
        "ignore"@.len() == 6,
        "ignore_missing"@.len() == 14,
        "ignore_unused"@.len() == 13,
        "ignore_eq_base"@.len() == 14,
        "ignore_inconsistent_interpolations"@.len() == 34,
        "data"@.len() == 4,
        "search"@.len() == 6,
        "ignore"@ != "search"@,
        "ignore_missing"@ != "ignore_eq_base"@,
{
    reveal_strlit("base_locale");
    reveal_strlit("locales");
    reveal_strlit("ignore");
    reveal_strlit("ignore_missing");
    reveal_strlit("ignore_unused");
    reveal_strlit("ignore_eq_base");
    reveal_strlit("ignore_inconsistent_interpolations");
    reveal_strlit("data");
    reveal_strlit("search");
    assert("ignore"@[0] != "search"@[0]);
    assert("ignore_missing"@[7] != "ignore_eq_base"@[7]);
}

pub(crate) proof fn data_names_differ()
    ensures
        "read"@.len() == 4,
        "write"@.len() == 5,
        "external"@.len() == 8,
        "router"@.len() == 6,
        "keep_order"@.len() == 10,
{
    reveal_strlit("read");
    reveal_strlit("write");
    reveal_strlit("external");
    reveal_strlit("router");
    reveal_strlit("keep_order");
}

pub(crate) proof fn search_names_differ()
    ensures
        "paths"@.len() == 5,
        "exclude"@.len() == 7,
        "only"@.len() == 4,
        "relative_roots"@.len() == 14,
        "relative_exclude_method_name_paths"@.len() == 34,
{
    reveal_strlit("paths");
    reveal_strlit("exclude");
    reveal_strlit("only");
    reveal_strlit("relative_roots");
    reveal_strlit("relative_exclude_method_name_paths");
}

/// An empty list has nothing under a key.
proof fn nothing_under(key: Seq<char>)
    ensures
        under(Seq::empty(), key) is None,
{
    let none = Seq::<(NodeV, NodeV)>::empty();
    if exists|i: int| stands_under(none, key, i) {
        let i = choose|i: int| stands_under(none, key, i);
        assert(stands_under(none, key, i));
    }
}

proof fn data_is_read(entries: Seq<(NodeV, NodeV)>, n: nat, path: Seq<char>)
    requires
        n <= entries.len(),
        keys_differ(entries),
        data_section(default_config().data, entries, n, path) is Ok,
    ensures
        data_by(
            entries.take(n as int),
            data_section(default_config().data, entries, n, path)->Ok_0,
            path,
        ),
    decreases n,
{
    if n == 0 {
        assert(entries.take(0) =~= Seq::empty());
        nothing_under("read"@);
        nothing_under("write"@);
        nothing_under("external"@);
        nothing_under("router"@);
        nothing_under("keep_order"@);
    } else {
        data_is_read(entries, (n - 1) as nat, path);
        front_keys_differ(entries, n as int);
        data_names_differ();
        let before = entries.take(n - 1);
        let e = entries[n - 1];
        let key = text_or_empty(e.0);
        let now = data_section(default_config().data, entries, (n - 1) as nat, path)->Ok_0;
        assert(with_data_setting(now, key, e.1, path) is Ok);
        assert(key.len() > 0);
        assert(e.0.text() == Some(key));
        under_pushed(before, e, "read"@);
        under_pushed(before, e, "write"@);
        under_pushed(before, e, "external"@);
        under_pushed(before, e, "router"@);
        under_pushed(before, e, "keep_order"@);
    }
}

proof fn search_is_read(entries: Seq<(NodeV, NodeV)>, n: nat, path: Seq<char>)
    requires
        n <= entries.len(),
        keys_differ(entries),
        search_section(default_config().search, entries, n, path) is Ok,
    ensures
        search_by(
            entries.take(n as int),
            search_section(default_config().search, entries, n, path)->Ok_0,
            path,
        ),
    decreases n,
{
    let excluded = "relative_exclude_method_name_paths"@;
    if n == 0 {
        assert(entries.take(0) =~= Seq::empty());
        nothing_under("paths"@);
        nothing_under("exclude"@);
        nothing_under("only"@);
        nothing_under("relative_roots"@);
        nothing_under(excluded);
    } else {
        search_is_read(entries, (n - 1) as nat, path);
        front_keys_differ(entries, n as int);
        search_names_differ();
        let before = entries.take(n - 1);
        let e = entries[n - 1];
        let key = text_or_empty(e.0);
        let now = search_section(default_config().search, entries, (n - 1) as nat, path)->Ok_0;
        assert(with_search_setting(now, key, e.1, path) is Ok);
        assert(key.len() > 0);
        assert(e.0.text() == Some(key));
        under_pushed(before, e, "paths"@);
        under_pushed(before, e, "exclude"@);
        under_pushed(before, e, "only"@);
        under_pushed(before, e, "relative_roots"@);
        under_pushed(before, e, excluded);
    }
}

proof fn config_is_read(entries: Seq<(NodeV, NodeV)>, n: nat, path: Seq<char>)
    requires
        n <= entries.len(),
        keys_differ(entries),
        settings_upto(entries, n, path) is Ok,
    ensures
        config_by(entries.take(n as int), settings_upto(entries, n, path)->Ok_0, path),
    decreases n,
{
    let interpolations = "ignore_inconsistent_interpolations"@;
    if n == 0 {
        assert(entries.take(0) =~= Seq::empty());
        nothing_under("base_locale"@);
        nothing_under("locales"@);
        nothing_under("ignore"@);
        nothing_under("ignore_missing"@);
        nothing_under("ignore_unused"@);
        nothing_under("ignore_eq_base"@);
        nothing_under(interpolations);
        nothing_under("data"@);
        nothing_under("search"@);
    } else {
        config_is_read(entries, (n - 1) as nat, path);
        front_keys_differ(entries, n as int);
        let e = entries[n - 1];
        let now = settings_upto(entries, (n - 1) as nat, path)->Ok_0;
        assert(e.0.text() is Some);
        one_more_setting(entries.take(n - 1), e, now, path);
    }
}

proof fn one_more_setting(
    before: Seq<(NodeV, NodeV)>,
    e: (NodeV, NodeV),
    now: ConfigV,
    path: Seq<char>,
)
    requires
        keys_differ(before.push(e)),
        e.0.text() is Some,
        config_by(before, now, path),
        with_setting(now, e.0.text()->Some_0, e.1, path) is Ok,
    ensures
        config_by(
            before.push(e),
            with_setting(now, e.0.text()->Some_0, e.1, path)->Ok_0,
            path,
        ),
{
    let all = before.push(e);
    let key = e.0.text()->Some_0;
    let after = with_setting(now, key, e.1, path)->Ok_0;
    let interpolations = "ignore_inconsistent_interpolations"@;
    setting_names_differ();
    under_pushed(before, e, "base_locale"@);
    under_pushed(before, e, "locales"@);
    under_pushed(before, e, "ignore"@);
    under_pushed(before, e, "ignore_missing"@);
    under_pushed(before, e, "ignore_unused"@);
    under_pushed(before, e, "ignore_eq_base"@);
    under_pushed(before, e, interpolations);
    under_pushed(before, e, "data"@);
    under_pushed(before, e, "search"@);
    assert(text_read(under(all, "base_locale"@), after.base_locale));
    assert(some_list_read(under(all, "locales"@), context(path, "locales"@), after.locales));
    assert(list_read(
        under(all, "ignore"@),
        context(path, "ignore"@),
        after.ignore,
        Seq::empty(),
    ));
    assert(data_read(under(all, "data"@), after.data, path));
    assert(search_read(under(all, "search"@), after.search, path));
}

// ----------------------------------------------------------- what is read alike

proof fn lists_read_alike(a: NodeV, b: NodeV, c: Seq<char>, d: Seq<char>)
    requires
        alike(a, b),
        str_list_of(a, c) is Ok,
        str_list_of(b, d) is Ok,
    ensures
        str_list_of(a, c)->Ok_0 == str_list_of(b, d)->Ok_0,
{
    if let NodeV::List { items: x, .. } = a {
        let y = b->items;
        assert forall|i: int| 0 <= i < x.len() implies (#[trigger] x[i]).text() == y[i].text() by {
            assert(alike(x[i], y[i]));
            assert(x[i].text() is Some && y[i].text() is Some);
        }
        assert(str_list_of(a, c)->Ok_0 =~= str_list_of(b, d)->Ok_0);
    }
}

proof fn rules_read_alike(x: Seq<NodeV>, y: Seq<NodeV>, n: nat, c: Seq<char>, d: Seq<char>)
    requires
        n <= x.len() == y.len(),
        forall|i: int| 0 <= i < x.len() ==> alike(#[trigger] x[i], y[i]),
        write_rules_upto(x, n, c) is Ok,
        write_rules_upto(y, n, d) is Ok,
    ensures
        write_rules_upto(x, n, c)->Ok_0 == write_rules_upto(y, n, d)->Ok_0,
    decreases n,
{
    if n > 0 {
        rules_read_alike(x, y, (n - 1) as nat, c, d);
        let p = x[n - 1];
        let q = y[n - 1];
        assert(alike(p, q));
        assert(write_rule_of(p, c) is Ok && write_rule_of(q, d) is Ok);
        if let NodeV::List { items: s, .. } = p {
            let t = q->items;
            assert(alike(s[0], t[0]) && alike(s[1], t[1]));
        }
    }
}

proof fn groups_read_alike(
    x: Seq<(NodeV, NodeV)>,
    y: Seq<(NodeV, NodeV)>,
    n: nat,
    c: Seq<char>,
    d: Seq<char>,
)
    requires
        n <= x.len() == y.len(),
        forall|i: int|
            0 <= i < x.len() ==> alike((#[trigger] x[i]).0, y[i].0) && alike(x[i].1, y[i].1),
        groups_upto(x, n, c) is Ok,
        groups_upto(y, n, d) is Ok,
    ensures
        groups_upto(x, n, c)->Ok_0 == groups_upto(y, n, d)->Ok_0,
    decreases n,
{
    if n > 0 {
        groups_read_alike(x, y, (n - 1) as nat, c, d);
        assert(alike(x[n - 1].0, y[n - 1].0) && alike(x[n - 1].1, y[n - 1].1));
        assert(str_list_of(x[n - 1].1, c) is Ok && str_list_of(y[n - 1].1, d) is Ok);
        lists_read_alike(x[n - 1].1, y[n - 1].1, c, d);
    }
}

proof fn nodes_read_alike(a: NodeV, b: NodeV, c: Seq<char>, d: Seq<char>)
    requires
        alike(a, b),
    ensures
        a.text() == b.text(),
        str_list_of(a, c) is Ok && str_list_of(b, d) is Ok ==> str_list_of(a, c)->Ok_0
            == str_list_of(b, d)->Ok_0,
        write_rules_of(a, c) is Ok && write_rules_of(b, d) is Ok ==> write_rules_of(a, c)->Ok_0
            == write_rules_of(b, d)->Ok_0,
        ignore_spec_of(a, c) is Ok && ignore_spec_of(b, d) is Ok ==> ignore_spec_of(a, c)->Ok_0
            == ignore_spec_of(b, d)->Ok_0,
{
    if str_list_of(a, c) is Ok && str_list_of(b, d) is Ok {
        lists_read_alike(a, b, c, d);
    }
    match a {
        NodeV::List { items: x, .. } => {
            if write_rules_of(a, c) is Ok && write_rules_of(b, d) is Ok {
                rules_read_alike(x, b->items, x.len(), c, d);
            }
        },
        NodeV::Mapping { entries: x, .. } => {
            if ignore_spec_of(a, c) is Ok && ignore_spec_of(b, d) is Ok {
                groups_read_alike(x, b->entries, x.len(), c, d);
            }
        },
        _ => {},
    }
}

/// What stands under a key is read alike in both.
proof fn under_is_read_alike(
    a: Seq<(NodeV, NodeV)>,
    b: Seq<(NodeV, NodeV)>,
    key: Seq<char>,
    c: Seq<char>,
    d: Seq<char>,
)
    requires
        same_under(a, b, key),
    ensures
        under(a, key) is Some <==> under(b, key) is Some,
        under(a, key) matches Some(x) ==> {
            let y = under(b, key)->Some_0;
            &&& x.text() == y.text()
            &&& str_list_of(x, c) is Ok && str_list_of(y, d) is Ok ==> str_list_of(x, c)->Ok_0
                == str_list_of(y, d)->Ok_0
            &&& write_rules_of(x, c) is Ok && write_rules_of(y, d) is Ok ==> write_rules_of(
                x,
                c,
            )->Ok_0 == write_rules_of(y, d)->Ok_0
            &&& ignore_spec_of(x, c) is Ok && ignore_spec_of(y, d) is Ok ==> ignore_spec_of(
                x,
                c,
            )->Ok_0 == ignore_spec_of(y, d)->Ok_0
        },
{
    if let Some(x) = under(a, key) {
        nodes_read_alike(x, under(b, key)->Some_0, c, d);
    }
}

proof fn data_is_read_alike(
    a: Seq<(NodeV, NodeV)>,
    b: Seq<(NodeV, NodeV)>,
    v: DataV,
    w: DataV,
    p: Seq<char>,
    q: Seq<char>,
)
    requires
        forall|i: int|
            0 <= i < data_settings().len() ==> same_under(a, b, #[trigger] data_settings()[i]),
        data_by(a, v, p),
        data_by(b, w, q),
    ensures
        v == w,
{
    let names = data_settings();
    reveal_strlit("conservative_router");
    reveal_strlit("pattern_router");
    assert("conservative_router"@.len() != "pattern_router"@.len());
    assert(same_under(a, b, names[0]) && same_under(a, b, names[1]) && same_under(a, b, names[2])
        && same_under(a, b, names[3]) && same_under(a, b, names[4]));
    under_is_read_alike(a, b, "read"@, context(p, "data."@ + "read"@), context(q, "data."@ + "read"@));
    under_is_read_alike(
        a,
        b,
        "write"@,
        context(p, "data."@ + "write"@),
        context(q, "data."@ + "write"@),
    );
    under_is_read_alike(
        a,
        b,
        "external"@,
        context(p, "data."@ + "external"@),
        context(q, "data."@ + "external"@),
    );
    under_is_read_alike(a, b, "router"@, p, q);
    under_is_read_alike(a, b, "keep_order"@, p, q);
}

proof fn search_is_read_alike(
    a: Seq<(NodeV, NodeV)>,
    b: Seq<(NodeV, NodeV)>,
    v: SearchV,
    w: SearchV,
    p: Seq<char>,
    q: Seq<char>,
)
    requires
        forall|i: int|
            0 <= i < search_settings().len() ==> same_under(a, b, #[trigger] search_settings()[i]),
        search_by(a, v, p),
        search_by(b, w, q),
    ensures
        v == w,
{
    let names = search_settings();
    let roots = "relative_roots"@;
    let excluded = "relative_exclude_method_name_paths"@;
    assert(same_under(a, b, names[0]) && same_under(a, b, names[1]) && same_under(a, b, names[2])
        && same_under(a, b, names[3]) && same_under(a, b, names[4]));
    under_is_read_alike(
        a,
        b,
        "paths"@,
        context(p, "search."@ + "paths"@),
        context(q, "search."@ + "paths"@),
    );
    under_is_read_alike(
        a,
        b,
        "exclude"@,
        context(p, "search."@ + "exclude"@),
        context(q, "search."@ + "exclude"@),
    );
    under_is_read_alike(
        a,
        b,
        "only"@,
        context(p, "search."@ + "only"@),
        context(q, "search."@ + "only"@),
    );
    under_is_read_alike(a, b, roots, context(p, "search."@ + roots), context(q, "search."@ + roots));
    under_is_read_alike(
        a,
        b,
        excluded,
        context(p, "search."@ + excluded),
        context(q, "search."@ + excluded),
    );
}

proof fn config_is_read_alike(
    a: Seq<(NodeV, NodeV)>,
    b: Seq<(NodeV, NodeV)>,
    v: ConfigV,
    w: ConfigV,
    p: Seq<char>,
    q: Seq<char>,
)
    requires
        same_settings(a, b),
        config_by(a, v, p),
        config_by(b, w, q),
    ensures
        v == w,
{
    let names = plain_settings();
    let interpolations = "ignore_inconsistent_interpolations"@;
    assert(same_under(a, b, names[0]) && same_under(a, b, names[1]) && same_under(a, b, names[2])
        && same_under(a, b, names[3]) && same_under(a, b, names[4]) && same_under(a, b, names[5])
        && same_under(a, b, names[6]));
    under_is_read_alike(a, b, "base_locale"@, p, q);
    under_is_read_alike(a, b, "locales"@, context(p, "locales"@), context(q, "locales"@));
    under_is_read_alike(a, b, "ignore"@, context(p, "ignore"@), context(q, "ignore"@));
    under_is_read_alike(
        a,
        b,
        "ignore_missing"@,
        context(p, "ignore_missing"@),
        context(q, "ignore_missing"@),
    );
    under_is_read_alike(
        a,
        b,
        "ignore_unused"@,
        context(p, "ignore_unused"@),
        context(q, "ignore_unused"@),
    );
    under_is_read_alike(
        a,
        b,
        "ignore_eq_base"@,
        context(p, "ignore_eq_base"@),
        context(q, "ignore_eq_base"@),
    );
    under_is_read_alike(
        a,
        b,
        interpolations,
        context(p, interpolations),
        context(q, interpolations),
    );
    if let Some(x) = under(a, "data"@) {
        let s = x.entries()->Some_0;
        let t = under(b, "data"@)->Some_0.entries()->Some_0;
        data_is_read(s, s.len(), p);
        data_is_read(t, t.len(), q);
        assert(s.take(s.len() as int) =~= s);
        assert(t.take(t.len() as int) =~= t);
        data_is_read_alike(s, t, v.data, w.data, p, q);
    }
    if let Some(x) = under(a, "search"@) {
        let s = x.entries()->Some_0;
        let t = under(b, "search"@)->Some_0.entries()->Some_0;
        search_is_read(s, s.len(), p);
        search_is_read(t, t.len(), q);
        assert(s.take(s.len() as int) =~= s);
        assert(t.take(t.len() as int) =~= t);
        search_is_read_alike(s, t, v.search, w.search, p, q);
    }
}

// ------------------------------------------------------------------------- laws

/// The order of the settings does not matter: two configs with the same
/// settings, in whatever order and on whatever lines, and whatever their files
/// are called, are the same configuration and have the same digest.
pub proof fn the_order_of_settings_does_not_matter(
    src: Seq<char>,
    a: NodeV,
    path: Seq<char>,
    other: Seq<char>,
    b: NodeV,
    other_path: Seq<char>,
)
    requires
        a.entries() is Some,
        b.entries() is Some,
        same_settings(a.entries()->Some_0, b.entries()->Some_0),
        parsed_config(src, Ok(Some(a)), path) is Ok,
        parsed_config(other, Ok(Some(b)), other_path) is Ok,
    ensures
        parsed_config(src, Ok(Some(a)), path)->Ok_0 == parsed_config(
            other,
            Ok(Some(b)),
            other_path,
        )->Ok_0,
        digest_of(parsed_config(src, Ok(Some(a)), path)->Ok_0) == digest_of(
            parsed_config(other, Ok(Some(b)), other_path)->Ok_0,
        ),
{
    let x = a.entries()->Some_0;
    let y = b.entries()->Some_0;
    config_is_read(x, x.len(), path);
    config_is_read(y, y.len(), other_path);
    assert(x.take(x.len() as int) =~= x);
    assert(y.take(y.len() as int) =~= y);
    config_is_read_alike(
        x,
        y,
        settings_upto(x, x.len(), path)->Ok_0,
        settings_upto(y, y.len(), other_path)->Ok_0,
        path,
        other_path,
    );
}

/// A lower-case hexadecimal digit.
pub open spec fn is_hex(c: char) -> bool {
    '0' <= c <= '9' || 'a' <= c <= 'f'
}

proof fn hex_digits_are_hex(h: int, n: nat)
    requires
        0 <= h,
    ensures
        hex_of(h, n).len() == n,
        forall|i: int| 0 <= i < n ==> is_hex(#[trigger] hex_of(h, n)[i]),
    decreases n,
{
    if n > 0 {
        hex_digits_are_hex(h / 16, (n - 1) as nat);
        let d = h % 16;
        assert(is_hex(hex_digit(d))) by {
            if d < 10 {
                assert(48 + d <= 57);
            }
        }
    }
}

/// A digest is 16 lower-case hexadecimal digits.
pub proof fn a_digest_is_sixteen_hex_digits(cfg: ConfigV)
    ensures
        digest_of(cfg).len() == 16,
        forall|i: int| 0 <= i < 16 ==> is_hex(#[trigger] digest_of(cfg)[i]),
{
    let bytes = encode_utf8(digest_text(cfg));
    hex_digits_are_hex(fnv1a64_of(bytes, bytes.len() as int) as int, 16);
}

} // verus!
