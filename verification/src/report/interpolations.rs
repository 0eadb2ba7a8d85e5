//! The two interpolation checks. Both share one scanner.
use crate::config::{Config, IgnoreType};
use crate::data::load::{borrowed_model, sorted_of, Leaf, LeafV, LocaleTree, Value, ValueV};
use crate::data::store::Store;
use crate::pattern::any_accepts;
use crate::plural::names;
use crate::report::{
    cells_model, push_row, render_table, rows_model, table, text_row, with_row, KeyRow, KeyRowV,
    Outcome, Reason, ReasonV,
};
use crate::text::{
    chars_of, distinct, is_distinct, position_from, position_of, push_text, same_text, same_texts,
    texts,
};
use crate::textmap::distinct_sorted;
use vstd::prelude::*;

verus! {

// ------------------------------------------------------------------- variables

/// The place after the `}` that closes the variable at `i`, where one stands
/// there: `%{`, at least one character, `}`, and no `%` before it.
pub open spec fn variable_end(s: Seq<char>, i: int) -> Option<int> {
    let close = i + 2 + position_of(s.skip(i + 2), '}');
    if 0 <= i && i + 2 < s.len() && s[i] == '%' && (i == 0 || s[i - 1] != '%') && s[i + 1] == '{'
        && i + 2 < close < s.len() {
        Some(close + 1)
    } else {
        None
    }
}

/// The variables of `s` from `i` on.
pub open spec fn variables_from(s: Seq<char>, i: int) -> Seq<Seq<char>>
    decreases s.len() - i,
{
    if i < 0 || i >= s.len() {
        Seq::empty()
    } else {
        match variable_end(s, i) {
            Some(end) => if i < end <= s.len() {
                seq![s.subrange(i, end)] + variables_from(s, end)
            } else {
                Seq::empty()
            },
            None => variables_from(s, i + 1),
        }
    }
}

/// Every `%{...}` of a text, with its braces.
pub open spec fn variables_of(s: Seq<char>) -> Seq<Seq<char>> {
    variables_from(s, 0)
}

proof fn no_variable_at_the_end(s: Seq<char>, i: int)
    requires
        i + 2 >= s.len(),
        0 <= i,
    ensures
        variables_from(s, i) == Seq::<Seq<char>>::empty(),
    decreases s.len() - i,
{
    if i < s.len() {
        no_variable_at_the_end(s, i + 1);
    }
}

/// Every `%{...}` in `value`, as the full match including the braces.
/// `%%{scope}` is an escaped `%` and does not match.
pub fn variables<'a>(value: &'a str) -> (out: Vec<&'a str>)
    ensures
        names(out@) == variables_of(value@),
{
    let v = chars_of(value);
    let mut out: Vec<&'a str> = Vec::new();
    let mut i: usize = 0;
    assert(names(out@) + variables_from(v@, 0) =~= variables_of(value@));
    while i < v.len() && v.len() - i > 2
        invariant
            v@ == value@,
            i <= v.len(),
            names(out@) + variables_from(v@, i as int) == variables_of(value@),
        decreases v.len() - i,
    {
        let ghost before = names(out@);
        let ghost start = i as int;
        if v[i] == '%' && (i == 0 || v[i - 1] != '%') && v[i + 1] == '{' {
            let close = position_from(&v, '}', i + 2);
            if close < v.len() && close > i + 2 {
                let found = value.substring_char(i, close + 1);
                out.push(found);
                i = close + 1;
                proof {
                    assert(variable_end(v@, start) == Some(i as int));
                    let tail = variables_from(v@, i as int);
                    assert(names(out@) =~= before.push(found@));
                    assert(names(out@) + tail =~= before + (seq![found@] + tail));
                }
                continue ;
            }
        }
        assert(variable_end(v@, start) is None);
        i = i + 1;
    }
    proof {
        no_variable_at_the_end(v@, i as int);
        assert(names(out@) + Seq::<Seq<char>>::empty() =~= names(out@));
    }
    out
}

/// The place after the run of `c` that starts at `i`.
pub open spec fn after_run(s: Seq<char>, i: int, c: char) -> int
    decreases s.len() - i,
{
    if 0 <= i < s.len() && s[i] == c {
        after_run(s, i + 1, c)
    } else {
        i
    }
}

/// The place before the run of `c` that ends at `j`, but not before `i`.
pub open spec fn before_run(s: Seq<char>, i: int, j: int, c: char) -> int
    decreases j,
{
    if i < j <= s.len() && 0 < j && s[j - 1] == c {
        before_run(s, i, j - 1, c)
    } else {
        j
    }
}

/// The name inside `%{name}`.
pub open spec fn variable_name_of(s: Seq<char>) -> Seq<char> {
    let start = after_run(s, after_run(s, 0, '%'), '{');
    s.subrange(start, before_run(s, start, s.len() as int, '}'))
}

fn skip_run(v: &Vec<char>, from: usize, c: char) -> (i: usize)
    requires
        from <= v.len(),
    ensures
        i == after_run(v@, from as int, c),
        from <= i <= v.len(),
{
    let mut i: usize = from;
    while i < v.len() && v[i] == c
        invariant
            from <= i <= v.len(),
            after_run(v@, from as int, c) == after_run(v@, i as int, c),
        decreases v.len() - i,
    {
        i = i + 1;
    }
    i
}

/// The variable name inside `%{name}`.
pub fn variable_name<'a>(matched: &'a str) -> (name: &'a str)
    ensures
        name@ == variable_name_of(matched@),
{
    let v = chars_of(matched);
    let start = skip_run(&v, skip_run(&v, 0, '%'), '{');
    let mut end: usize = v.len();
    while end > start && v[end - 1] == '}'
        invariant
            start <= end <= v.len(),
            before_run(v@, start as int, v.len() as int, '}') == before_run(
                v@,
                start as int,
                end as int,
                '}',
            ),
        decreases end,
    {
        end = end - 1;
    }
    matched.substring_char(start, end)
}

/// The names that the `i18n` library keeps for itself.
pub open spec fn is_reserved(s: Seq<char>) -> bool {
    ||| s == "cascade"@
    ||| s == "deep_interpolation"@
    ||| s == "skip_interpolation"@
    ||| s == "default"@
    ||| s == "exception_handler"@
    ||| s == "fallback"@
    ||| s == "fallback_in_progress"@
    ||| s == "fallback_original_locale"@
    ||| s == "format"@
    ||| s == "object"@
    ||| s == "raise"@
    ||| s == "resolve"@
    ||| s == "scope"@
    ||| s == "separator"@
    ||| s == "throw"@
}

/// Whether the `i18n` library keeps the name for itself.
pub fn reserved_key(s: &str) -> (b: bool)
    ensures
        b == is_reserved(s@),
{
    same_text(s, "cascade") || same_text(s, "deep_interpolation") || same_text(
        s,
        "skip_interpolation",
    ) || same_text(s, "default") || same_text(s, "exception_handler") || same_text(s, "fallback")
        || same_text(s, "fallback_in_progress") || same_text(s, "fallback_original_locale")
        || same_text(s, "format") || same_text(s, "object") || same_text(s, "raise") || same_text(
        s,
        "resolve",
    ) || same_text(s, "scope") || same_text(s, "separator") || same_text(s, "throw")
}

// ---------------------------------------------------------------------- reports

/// The rows of one of the two checks.
pub struct InterpolationReport {
    pub rows: Vec<KeyRow>,
    pub title: String,
}

/// The cells of a row: locale, key and reason.
pub open spec fn detail_cells(rows: Seq<KeyRowV>) -> Seq<Seq<Seq<char>>> {
    Seq::new(rows.len(), |i: int| seq![rows[i].locale, rows[i].key, rows[i].details()])
}

impl InterpolationReport {
    /// `Found` where there is a row.
    pub fn outcome(&self) -> (o: Outcome)
        ensures
            o == if self.rows.len() > 0 {
                Outcome::Found
            } else {
                Outcome::Clean
            },
    {
        Outcome::of(self.rows.len() > 0)
    }

    /// The report as a table.
    pub fn to_text(&self) -> (out: String)
        ensures
            out@ == table(
                self.title@,
                seq!["Locale"@, "Key"@, "Detail"@],
                detail_cells(rows_model(self.rows@)),
            ),
    {
        let mut rows: Vec<Vec<String>> = Vec::new();
        let mut i: usize = 0;
        while i < self.rows.len()
            invariant
                i <= self.rows.len(),
                rows.len() == i,
                forall|j: int|
                    0 <= j < i ==> texts((#[trigger] rows@[j])@) == detail_cells(
                        rows_model(self.rows@),
                    )[j],
            decreases self.rows.len() - i,
        {
            let row = &self.rows[i];
            rows.push(text_row(&row.locale, &row.key, &row.details()));
            i = i + 1;
        }
        assert(cells_model(rows@) =~= detail_cells(rows_model(self.rows@)));
        render_table(&self.title, &text_row("Locale", "Key", "Detail"), &rows)
    }
}

/// The text of a string value. A plain scalar such as a number has none.
pub open spec fn string_value(v: ValueV) -> Option<Seq<char>> {
    match v {
        ValueV::Str(s) => Some(s),
        _ => None,
    }
}

fn string_of<'a>(v: &'a Value) -> (r: Option<&'a str>)
    ensures
        match r {
            Some(s) => string_value(v@) == Some(s@),
            None => string_value(v@) is None,
        },
{
    match v {
        Value::Str(s) => Some(s.as_str()),
        _ => None,
    }
}

fn variable_set(value: &str) -> (out: Vec<String>)
    ensures
        texts(out@) == distinct(variables_of(value@)),
        is_distinct(texts(out@), variables_of(value@)),
{
    let found = variables(value);
    let mut all: Vec<String> = Vec::new();
    let mut i: usize = 0;
    while i < found.len()
        invariant
            i <= found.len(),
            all.len() == i,
            forall|j: int| 0 <= j < i ==> #[trigger] all@[j]@ == found@[j]@,
        decreases found.len() - i,
    {
        all.push(found[i].to_owned());
        i = i + 1;
    }
    assert(texts(all@) =~= names(found@));
    distinct_sorted(&all)
}

/// The row of a key whose variables differ from those of the base locale.
pub open spec fn inconsistent_row(
    trees: Map<Seq<char>, LocaleTree>,
    base: Seq<char>,
    leaf: LeafV,
    value: Seq<char>,
    locale: Seq<char>,
) -> Option<KeyRowV> {
    if locale == base || !trees.contains_key(locale) {
        None
    } else {
        match trees[locale].found(leaf.key) {
            None => None,
            Some(other) => match string_value(other.value) {
                None => None,
                Some(theirs) => if distinct(variables_of(value)) == distinct(
                    variables_of(theirs),
                ) {
                    None
                } else {
                    Some(
                        KeyRowV {
                            locale,
                            key: leaf.key,
                            value: Some(theirs),
                            reason: Some(
                                ReasonV::Interpolations {
                                    variables: distinct(variables_of(theirs)),
                                    base_locale: base,
                                    base_variables: distinct(variables_of(value)),
                                },
                            ),
                        },
                    )
                },
            },
        }
    }
}

/// The rows of one key in the first `n` locales.
pub open spec fn inconsistent_in(
    trees: Map<Seq<char>, LocaleTree>,
    base: Seq<char>,
    leaf: LeafV,
    value: Seq<char>,
    locales: Seq<Seq<char>>,
    n: int,
) -> Seq<KeyRowV>
    decreases n,
{
    if n <= 0 {
        Seq::empty()
    } else {
        with_row(
            inconsistent_in(trees, base, leaf, value, locales, n - 1),
            inconsistent_row(trees, base, leaf, value, locales[n - 1]),
        )
    }
}

/// The rows of the first `n` keys of the base locale. A key that is ignored or
/// has no string is left out.
pub open spec fn inconsistent_upto(
    trees: Map<Seq<char>, LocaleTree>,
    base: Seq<char>,
    ignore: Seq<Seq<char>>,
    leaves: Seq<LeafV>,
    locales: Seq<Seq<char>>,
    n: int,
) -> Seq<KeyRowV>
    decreases n,
{
    if n <= 0 {
        Seq::empty()
    } else {
        let before = inconsistent_upto(trees, base, ignore, leaves, locales, n - 1);
        let leaf = leaves[n - 1];
        match string_value(leaf.value) {
            None => before,
            Some(value) => if any_accepts(ignore, leaf.key) {
                before
            } else {
                before + inconsistent_in(
                    trees,
                    base,
                    leaf,
                    value,
                    locales,
                    locales.len() as int,
                )
            },
        }
    }
}

/// Every key, in order, whose variables differ between the base locale and one
/// of the locales.
pub open spec fn inconsistent_rows(
    trees: Map<Seq<char>, LocaleTree>,
    base: Seq<char>,
    ignore: Seq<Seq<char>>,
    locales: Seq<Seq<char>>,
) -> Seq<KeyRowV> {
    if trees.contains_key(base) {
        let leaves = sorted_of(trees[base].data());
        inconsistent_upto(trees, base, ignore, leaves, locales, leaves.len() as int)
    } else {
        Seq::empty()
    }
}

fn inconsistent_leaf(
    store: &Store,
    leaf: &Leaf,
    value: &str,
    locales: &Vec<String>,
    rows: &mut Vec<KeyRow>,
)
    requires
        store.wf(),
        string_value(leaf@.value) == Some(value@),
    ensures
        rows_model(final(rows)@) == rows_model(old(rows)@) + inconsistent_in(
            store.trees@,
            store.base_locale@,
            leaf@,
            value@,
            texts(locales@),
            locales.len() as int,
        ),
{
    let ghost trees = store.trees@;
    let ghost base = store.base_locale@;
    let ghost wanted = texts(locales@);
    let base_variables = variable_set(value);
    let mut i: usize = 0;
    assert(rows_model(rows@) + inconsistent_in(trees, base, leaf@, value@, wanted, 0)
        =~= rows_model(rows@));
    while i < locales.len()
        invariant
            i <= locales.len(),
            store.wf(),
            trees == store.trees@,
            base == store.base_locale@,
            wanted == texts(locales@),
            texts(base_variables@) == distinct(variables_of(value@)),
            rows_model(rows@) == rows_model(old(rows)@) + inconsistent_in(
                trees,
                base,
                leaf@,
                value@,
                wanted,
                i as int,
            ),
        decreases locales.len() - i,
    {
        let ghost before = rows_model(rows@);
        let locale = &locales[i];
        assert(wanted[i as int] == locale@);
        if !same_text(locale, &store.base_locale) {
            if let Some(tree) = store.tree(locale) {
                if let Some(other) = tree.get(&leaf.key) {
                    if let Some(theirs) = string_of(&other.value) {
                        let own = variable_set(theirs);
                        if !same_texts(&base_variables, &own) {
                            push_row(
                                rows,
                                KeyRow {
                                    locale: locale.clone(),
                                    key: leaf.key.clone(),
                                    value: Some(theirs.to_owned()),
                                    reason: Some(
                                        Reason::Interpolations {
                                            variables: own,
                                            base_locale: store.base_locale.clone(),
                                            base_variables: crate::data::load::clone_texts(
                                                &base_variables,
                                            ),
                                        },
                                    ),
                                },
                            );
                        }
                    }
                }
            }
        }
        i = i + 1;
        assert(rows_model(rows@) =~= rows_model(old(rows)@) + inconsistent_in(
            trees,
            base,
            leaf@,
            value@,
            wanted,
            i as int,
        ));
    }
}

/// Compares the variable set per key, base locale against each other locale.
pub fn inconsistent(cfg: &Config, store: &Store, locales: &Vec<String>) -> (r: InterpolationReport)
    requires
        store.wf(),
    ensures
        r.title@ == "Inconsistent interpolations"@,
        rows_model(r.rows@) == inconsistent_rows(
            store.trees@,
            store.base_locale@,
            cfg@.ignored(IgnoreType::InconsistentInterpolations, None),
            texts(locales@),
        ),
{
    let ignore = cfg.ignore_patterns(IgnoreType::InconsistentInterpolations, None);
    let mut rows: Vec<KeyRow> = Vec::new();
    assert(rows_model(rows@) =~= Seq::empty());
    if let Some(base_tree) = store.tree(&store.base_locale) {
        let leaves = base_tree.sorted_keys();
        let ghost model = sorted_of(base_tree.data());
        let ghost trees = store.trees@;
        let ghost base = store.base_locale@;
        let ghost wanted = texts(locales@);
        assert(model.len() == leaves.len());
        let mut i: usize = 0;
        while i < leaves.len()
            invariant
                i <= leaves.len(),
                store.wf(),
                model == borrowed_model(leaves@),
                trees == store.trees@,
                base == store.base_locale@,
                wanted == texts(locales@),
                rows_model(rows@) == inconsistent_upto(
                    trees,
                    base,
                    ignore@,
                    model,
                    wanted,
                    i as int,
                ),
            decreases leaves.len() - i,
        {
            let leaf = leaves[i];
            assert(model[i as int] == leaf@);
            if let Some(value) = string_of(&leaf.value) {
                if !ignore.is_match(&leaf.key) {
                    inconsistent_leaf(store, leaf, value, locales, &mut rows);
                }
            }
            i = i + 1;
        }
    }
    InterpolationReport { rows, title: "Inconsistent interpolations".to_owned() }
}

/// The reserved names among the first `n` variables.
pub open spec fn reserved_names(variables: Seq<Seq<char>>, n: int) -> Seq<Seq<char>>
    decreases n,
{
    if n <= 0 {
        Seq::empty()
    } else if is_reserved(variable_name_of(variables[n - 1])) {
        reserved_names(variables, n - 1).push(variable_name_of(variables[n - 1]))
    } else {
        reserved_names(variables, n - 1)
    }
}

/// The reserved names that a text uses.
pub open spec fn reserved_in(value: Seq<char>) -> Seq<Seq<char>> {
    reserved_names(variables_of(value), variables_of(value).len() as int)
}

fn reserved_hits(value: &str) -> (out: Vec<String>)
    ensures
        texts(out@) == reserved_in(value@),
{
    let found = variables(value);
    let ghost model = variables_of(value@);
    let mut out: Vec<String> = Vec::new();
    let mut i: usize = 0;
    assert(model.len() == found.len());
    assert(texts(out@) =~= Seq::empty());
    while i < found.len()
        invariant
            i <= found.len(),
            model == names(found@),
            texts(out@) == reserved_names(model, i as int),
        decreases found.len() - i,
    {
        assert(model[i as int] == found@[i as int]@);
        let name = variable_name(found[i]);
        if reserved_key(name) {
            push_text(&mut out, name.to_owned());
        }
        i = i + 1;
    }
    out
}

/// The row of a leaf whose value uses reserved names.
pub open spec fn reserved_row(locale: Seq<char>, leaf: LeafV) -> Option<KeyRowV> {
    match string_value(leaf.value) {
        None => None,
        Some(value) => if reserved_in(value).len() == 0 {
            None
        } else {
            Some(
                KeyRowV {
                    locale,
                    key: leaf.key,
                    value: Some(value),
                    reason: Some(ReasonV::Reserved { names: reserved_in(value) }),
                },
            )
        },
    }
}

/// The rows of the first `n` leaves of a locale.
pub open spec fn reserved_leaves(locale: Seq<char>, leaves: Seq<LeafV>, n: int) -> Seq<KeyRowV>
    decreases n,
{
    if n <= 0 {
        Seq::empty()
    } else {
        with_row(reserved_leaves(locale, leaves, n - 1), reserved_row(locale, leaves[n - 1]))
    }
}

/// The rows of the first `n` locales, each with its keys in order.
pub open spec fn reserved_rows(
    trees: Map<Seq<char>, LocaleTree>,
    locales: Seq<Seq<char>>,
    n: int,
) -> Seq<KeyRowV>
    decreases n,
{
    if n <= 0 {
        Seq::empty()
    } else {
        let before = reserved_rows(trees, locales, n - 1);
        let locale = locales[n - 1];
        if trees.contains_key(locale) {
            let leaves = sorted_of(trees[locale].data());
            before + reserved_leaves(locale, leaves, leaves.len() as int)
        } else {
            before
        }
    }
}

/// Values whose variables hit the reserved name list.
pub fn reserved(store: &Store, locales: &Vec<String>) -> (r: InterpolationReport)
    requires
        store.wf(),
    ensures
        r.title@ == "Reserved interpolations"@,
        rows_model(r.rows@) == reserved_rows(store.trees@, texts(locales@), locales.len() as int),
{
    let ghost trees = store.trees@;
    let ghost wanted = texts(locales@);
    let mut rows: Vec<KeyRow> = Vec::new();
    let mut k: usize = 0;
    assert(rows_model(rows@) =~= Seq::empty());
    while k < locales.len()
        invariant
            k <= locales.len(),
            store.wf(),
            trees == store.trees@,
            wanted == texts(locales@),
            rows_model(rows@) == reserved_rows(trees, wanted, k as int),
        decreases locales.len() - k,
    {
        let locale = &locales[k];
        assert(wanted[k as int] == locale@);
        let ghost before = rows_model(rows@);
        if let Some(tree) = store.tree(locale) {
            let leaves = tree.sorted_keys();
            let ghost model = sorted_of(tree.data());
            assert(model.len() == leaves.len());
            let mut i: usize = 0;
            assert(before + reserved_leaves(locale@, model, 0) =~= before);
            while i < leaves.len()
                invariant
                    i <= leaves.len(),
                    model == borrowed_model(leaves@),
                    rows_model(rows@) == before + reserved_leaves(locale@, model, i as int),
                decreases leaves.len() - i,
            {
                let leaf = leaves[i];
                assert(model[i as int] == leaf@);
                if let Some(value) = string_of(&leaf.value) {
                    let hits = reserved_hits(value);
                    assert(texts(hits@).len() == hits.len());
                    if hits.len() > 0 {
                        push_row(
                            &mut rows,
                            KeyRow {
                                locale: locale.clone(),
                                key: leaf.key.clone(),
                                value: Some(value.to_owned()),
                                reason: Some(Reason::Reserved { names: hits }),
                            },
                        );
                    }
                }
                i = i + 1;
                assert(rows_model(rows@) =~= before + reserved_leaves(locale@, model, i as int));
            }
        }
        k = k + 1;
    }
    InterpolationReport { rows, title: "Reserved interpolations".to_owned() }
}

} // verus!
