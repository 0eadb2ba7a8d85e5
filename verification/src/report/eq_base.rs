//! Keys whose value is the same as in the base locale.
use crate::config::{Config, ConfigV, IgnoreType};
use crate::data::load::{
    borrowed_model, sorted_of, table_model, values_model, LeafV, LocaleTree, Value, ValueV,
};
use crate::data::store::Store;
use crate::pattern::any_accepts;
use crate::report::{
    cells_model, push_row, render_table, rows_model, table, text_row, with_row, KeyRow, KeyRowV,
    Outcome,
};
use crate::text::{concat, same_text, texts};
use vstd::prelude::*;

verus! {

/// The rows of the report.
pub struct EqBaseReport {
    pub rows: Vec<KeyRow>,
    pub base_locale: String,
}

// ----------------------------------------------------------------- equal values

/// The first value under the name, from entry `i` on.
pub open spec fn named_value(entries: Seq<(Seq<char>, ValueV)>, name: Seq<char>, i: int) -> Option<
    int,
>
    decreases entries.len() - i,
{
    if i < 0 || i >= entries.len() {
        None
    } else if entries[i].0 == name {
        Some(i)
    } else {
        named_value(entries, name, i + 1)
    }
}

/// The two values are equal. The order of the entries of a mapping does not
/// count.
pub open spec fn equal_values(a: ValueV, b: ValueV) -> bool
    decreases a, 0nat,
{
    match (a, b) {
        (ValueV::List(x), ValueV::List(y)) => {
            x.len() == y.len() && forall|i: int|
                0 <= i < x.len() ==> equal_values(#[trigger] x[i], y[i])
        },
        (ValueV::Table(x), ValueV::Table(y)) => {
            x.len() == y.len() && forall|i: int|
                0 <= i < x.len() ==> equal_entry((#[trigger] x[i]).0, x[i].1, y)
        },
        _ => a == b,
    }
}

/// The mapping has an equal value under the name.
pub open spec fn equal_entry(
    name: Seq<char>,
    value: ValueV,
    entries: Seq<(Seq<char>, ValueV)>,
) -> bool
    decreases value, 1nat,
{
    named_value(entries, name, 0) matches Some(j) && equal_values(value, entries[j].1)
}

#[verifier::loop_isolation(false)]
fn values_equal(value: &Value, base: &Value) -> (same: bool)
    ensures
        same == equal_values(value@, base@),
    decreases value,
{
    match (value, base) {
        (Value::List(a), Value::List(b)) => {
            let ghost x = value@->List_0;
            let ghost y = base@->List_0;
            assert(x =~= values_model(a@));
            assert(y =~= values_model(b@));
            if a.len() != b.len() {
                return false;
            }
            let mut i: usize = 0;
            while i < a.len()
                invariant
                    i <= a.len(),
                    forall|j: int| 0 <= j < i ==> equal_values(#[trigger] x[j], y[j]),
                decreases a.len() - i,
            {
                assert(decreases_to!(*a => a@[i as int]));
                assert(x[i as int] == a@[i as int]@ && y[i as int] == b@[i as int]@);
                if !values_equal(&a[i], &b[i]) {
                    return false;
                }
                i = i + 1;
            }
            true
        },
        (Value::Table(a), Value::Table(b)) => {
            let ghost x = value@->Table_0;
            let ghost y = base@->Table_0;
            assert(x =~= table_model(a@));
            assert(y =~= table_model(b@));
            if a.len() != b.len() {
                return false;
            }
            let mut i: usize = 0;
            while i < a.len()
                invariant
                    i <= a.len(),
                    forall|j: int|
                        0 <= j < i ==> equal_entry((#[trigger] x[j]).0, x[j].1, y),
                decreases a.len() - i,
            {
                assert(decreases_to!(*a => a@[i as int]));
                let entry = &a[i];
                assert(x[i as int] == (entry.0@, entry.1@));
                let mut j: usize = 0;
                while j < b.len() && !same_text(&b[j].0, &entry.0)
                    invariant
                        j <= b.len(),
                        named_value(y, entry.0@, 0) == named_value(y, entry.0@, j as int),
                    decreases b.len() - j,
                {
                    assert(y[j as int].0 == b@[j as int].0@);
                    j = j + 1;
                }
                if j == b.len() {
                    assert(!equal_entry(x[i as int].0, x[i as int].1, y));
                    return false;
                }
                assert(y[j as int] == (b@[j as int].0@, b@[j as int].1@));
                assert(named_value(y, entry.0@, j as int) == Some(j as int));
                if !values_equal(&entry.1, &b[j].1) {
                    assert(!equal_entry(x[i as int].0, x[i as int].1, y));
                    return false;
                }
                i = i + 1;
            }
            true
        },
        (Value::Str(a), Value::Str(b)) => same_text(a, b),
        (Value::Plain(a), Value::Plain(b)) => same_text(a, b),
        (Value::Bool(a), Value::Bool(b)) => *a == *b,
        (Value::Nil, Value::Nil) => true,
        _ => false,
    }
}

// ------------------------------------------------------------------- the report

/// The row of a leaf whose value is the same in the base locale.
pub open spec fn eq_base_row(
    base: LocaleTree,
    ignore: Seq<Seq<char>>,
    locale: Seq<char>,
    leaf: LeafV,
) -> Option<KeyRowV> {
    if any_accepts(ignore, leaf.key) {
        None
    } else {
        match base.found(leaf.key) {
            None => None,
            Some(other) => if equal_values(leaf.value, other.value) {
                Some(
                    KeyRowV {
                        locale,
                        key: leaf.key,
                        value: Some(leaf.value.displayed()),
                        reason: None,
                    },
                )
            } else {
                None
            },
        }
    }
}

/// The rows of the first `n` leaves of a locale.
pub open spec fn eq_base_leaves(
    base: LocaleTree,
    ignore: Seq<Seq<char>>,
    locale: Seq<char>,
    leaves: Seq<LeafV>,
    n: int,
) -> Seq<KeyRowV>
    decreases n,
{
    if n <= 0 {
        Seq::empty()
    } else {
        with_row(
            eq_base_leaves(base, ignore, locale, leaves, n - 1),
            eq_base_row(base, ignore, locale, leaves[n - 1]),
        )
    }
}

/// The rows of the first `n` locales, the base locale left out.
pub open spec fn eq_base_rows(
    cfg: ConfigV,
    trees: Map<Seq<char>, LocaleTree>,
    base: Seq<char>,
    locales: Seq<Seq<char>>,
    n: int,
) -> Seq<KeyRowV>
    decreases n,
{
    if n <= 0 || !trees.contains_key(base) {
        Seq::empty()
    } else {
        let before = eq_base_rows(cfg, trees, base, locales, n - 1);
        let locale = locales[n - 1];
        if locale == base || !trees.contains_key(locale) {
            before
        } else {
            let leaves = sorted_of(trees[locale].data());
            before + eq_base_leaves(
                trees[base],
                cfg.ignored(IgnoreType::EqBase, Some(locale)),
                locale,
                leaves,
                leaves.len() as int,
            )
        }
    }
}

/// The keys of each locale whose value is the same in the base locale.
pub fn report(cfg: &Config, store: &Store, locales: &Vec<String>) -> (r: EqBaseReport)
    requires
        store.wf(),
    ensures
        r.base_locale@ == store.base_locale@,
        rows_model(r.rows@) == eq_base_rows(
            cfg@,
            store.trees@,
            store.base_locale@,
            texts(locales@),
            locales.len() as int,
        ),
{
    let ghost trees = store.trees@;
    let ghost base_name = store.base_locale@;
    let ghost wanted = texts(locales@);
    let mut rows: Vec<KeyRow> = Vec::new();
    assert(rows_model(rows@) =~= Seq::empty());
    if let Some(base) = store.tree(&store.base_locale) {
        let mut k: usize = 0;
        while k < locales.len()
            invariant
                k <= locales.len(),
                store.wf(),
                trees == store.trees@,
                base_name == store.base_locale@,
                trees.contains_key(base_name),
                *base == trees[base_name],
                wanted == texts(locales@),
                rows_model(rows@) == eq_base_rows(cfg@, trees, base_name, wanted, k as int),
            decreases locales.len() - k,
        {
            let locale = &locales[k];
            assert(wanted[k as int] == locale@);
            let ghost before = rows_model(rows@);
            if !same_text(locale, &store.base_locale) {
                if let Some(tree) = store.tree(locale) {
                    let ignore = cfg.ignore_patterns(IgnoreType::EqBase, Some(locale.as_str()));
                    let leaves = tree.sorted_keys();
                    let ghost model = sorted_of(tree.data());
                    let mut i: usize = 0;
                    assert(model.len() == leaves.len());
                    assert(before + eq_base_leaves(*base, ignore@, locale@, model, 0) =~= before);
                    while i < leaves.len()
                        invariant
                            i <= leaves.len(),
                            base.wf(),
                            model == borrowed_model(leaves@),
                            rows_model(rows@) == before + eq_base_leaves(
                                *base,
                                ignore@,
                                locale@,
                                model,
                                i as int,
                            ),
                        decreases leaves.len() - i,
                    {
                        let leaf = leaves[i];
                        assert(model[i as int] == leaf@);
                        if !ignore.is_match(&leaf.key) {
                            if let Some(other) = base.get(&leaf.key) {
                                if values_equal(&leaf.value, &other.value) {
                                    push_row(
                                        &mut rows,
                                        KeyRow {
                                            locale: locale.clone(),
                                            key: leaf.key.clone(),
                                            value: Some(leaf.value.to_display_string()),
                                            reason: None,
                                        },
                                    );
                                }
                            }
                        }
                        i = i + 1;
                        assert(rows_model(rows@) =~= before + eq_base_leaves(
                            *base,
                            ignore@,
                            locale@,
                            model,
                            i as int,
                        ));
                    }
                }
            }
            k = k + 1;
        }
    }
    EqBaseReport { rows, base_locale: store.base_locale.clone() }
}

/// The cells of a row: locale, key and value.
pub open spec fn value_cells(rows: Seq<KeyRowV>) -> Seq<Seq<Seq<char>>> {
    Seq::new(rows.len(), |i: int| seq![rows[i].locale, rows[i].key, rows[i].value_text()])
}

/// The rows as cells: locale, key and value.
pub(crate) fn value_rows(rows: &Vec<KeyRow>) -> (out: Vec<Vec<String>>)
    ensures
        cells_model(out@) == value_cells(rows_model(rows@)),
{
    let mut out: Vec<Vec<String>> = Vec::new();
    let mut i: usize = 0;
    while i < rows.len()
        invariant
            i <= rows.len(),
            out.len() == i,
            forall|j: int|
                0 <= j < i ==> texts((#[trigger] out@[j])@) == value_cells(rows_model(rows@))[j],
        decreases rows.len() - i,
    {
        let row = &rows[i];
        out.push(text_row(&row.locale, &row.key, &row.value_or_empty()));
        i = i + 1;
    }
    assert(cells_model(out@) =~= value_cells(rows_model(rows@)));
    out
}

impl EqBaseReport {
    /// `Found` where there is a row.
    pub fn outcome(&self) -> (o: Outcome)
        ensures
            o == if self.rows.len() > 0 {
                Outcome::Found
            } else {
                Outcome::Clean
            },
    {
        Outcome::of(self.rows.len() > 0)
    }

    /// The report as a table.
    pub fn to_text(&self) -> (out: String)
        ensures
            out@ == table(
                "Same value as "@ + self.base_locale@,
                seq!["Locale"@, "Key"@, "Value"@],
                value_cells(rows_model(self.rows@)),
            ),
    {
        render_table(
            &concat("Same value as ", &self.base_locale),
            &text_row("Locale", "Key", "Value"),
            &value_rows(&self.rows),
        )
    }
}

} // verus!
