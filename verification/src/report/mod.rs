//! The reports of the checks.
pub mod eq_base;
pub mod find;
pub mod interpolations;
pub mod missing;
pub mod normalize;
pub mod unused;

use crate::config::{ConfigV, IgnoreType};
use crate::data::load::clone_texts;
use crate::pattern::{accepts, any_accepts};
use crate::plural::names;
use crate::text::{concat, decimal, decimal_text, join, join_of, texts, trim_end, trim_end_of};
use vstd::prelude::*;

verus! {

/// Whether a check found anything.
#[derive(Debug, Clone, Copy, PartialEq, Eq, Structural)]
pub enum Outcome {
    Clean,
    Found,
}

impl Outcome {
    /// `Found` for `true`.
    pub fn of(found: bool) -> (o: Outcome)
        ensures
            o == if found {
                Outcome::Found
            } else {
                Outcome::Clean
            },
    {
        if found {
            Outcome::Found
        } else {
            Outcome::Clean
        }
    }
}

// --------------------------------------------------------------------- reasons

/// Why a row is in the report.
#[derive(Debug, PartialEq, Eq)]
pub enum Reason {
    /// Scanned in the source, no value in the locale. The first occurrence of
    /// the key, which is the one the table names.
    Used { path: String, line: usize },
    /// Present in another locale, absent in this one.
    Diff { present_in: String },
    /// A plural node short of a CLDR category.
    Plural { categories: Vec<&'static str> },
    /// The variables here against the base locale's. Both lists are the full
    /// `%{name}` match, sorted.
    Interpolations { variables: Vec<String>, base_locale: String, base_variables: Vec<String> },
    /// Variable names, without the braces, that are reserved.
    Reserved { names: Vec<String> },
}

/// What a [`Reason`] holds.
pub enum ReasonV {
    Used { path: Seq<char>, line: int },
    Diff { present_in: Seq<char> },
    Plural { categories: Seq<Seq<char>> },
    Interpolations {
        variables: Seq<Seq<char>>,
        base_locale: Seq<char>,
        base_variables: Seq<Seq<char>>,
    },
    Reserved { names: Seq<Seq<char>> },
}

impl View for Reason {
    type V = ReasonV;

    open spec fn view(&self) -> ReasonV {
        match self {
            Reason::Used { path, line } => ReasonV::Used { path: path@, line: *line as int },
            Reason::Diff { present_in } => ReasonV::Diff { present_in: present_in@ },
            Reason::Plural { categories } => ReasonV::Plural { categories: names(categories@) },
            Reason::Interpolations { variables, base_locale, base_variables } =>
                ReasonV::Interpolations {
                variables: texts(variables@),
                base_locale: base_locale@,
                base_variables: texts(base_variables@),
            },
            Reason::Reserved { names } => ReasonV::Reserved { names: texts(names@) },
        }
    }
}

/// The variables, or a phrase where there are none.
pub open spec fn variable_list_of(variables: Seq<Seq<char>>) -> Seq<char> {
    if variables.len() == 0 {
        "no variables"@
    } else {
        join_of(variables, ", "@)
    }
}

impl ReasonV {
    /// The reason in words, in the row of `locale`.
    pub open spec fn text(self, locale: Seq<char>) -> Seq<char> {
        match self {
            ReasonV::Used { path, line } => "used: "@ + path + ":"@ + decimal(line as nat),
            ReasonV::Diff { present_in } => "diff: present in "@ + present_in,
            ReasonV::Plural { categories } => "plural: missing "@ + join_of(categories, ", "@),
            ReasonV::Interpolations { variables, base_locale, base_variables } => locale
                + " has "@ + variable_list_of(variables) + ", "@ + base_locale + " has "@
                + variable_list_of(base_variables),
            ReasonV::Reserved { names } => join_of(names, ", "@),
        }
    }
}

fn variable_list(variables: &Vec<String>) -> (out: String)
    ensures
        out@ == variable_list_of(texts(variables@)),
{
    assert(texts(variables@).len() == variables.len());
    if variables.len() == 0 {
        "no variables".to_owned()
    } else {
        join(variables, ", ")
    }
}

/// The literals as strings.
pub(crate) fn owned_names(v: &Vec<&'static str>) -> (out: Vec<String>)
    ensures
        texts(out@) == names(v@),
{
    let mut out: Vec<String> = Vec::new();
    let mut i: usize = 0;
    while i < v.len()
        invariant
            i <= v.len(),
            out.len() == i,
            forall|j: int| 0 <= j < i ==> #[trigger] out@[j]@ == v@[j]@,
        decreases v.len() - i,
    {
        out.push(v[i].to_owned());
        i = i + 1;
    }
    assert(texts(out@) =~= names(v@));
    out
}

impl Reason {
    /// The prose the plain-text table prints. `locale` is the row's own, which
    /// the reason does not repeat.
    pub fn to_text(&self, locale: &str) -> (out: String)
        ensures
            out@ == self@.text(locale@),
    {
        match self {
            Reason::Used { path, line } => {
                let mut out = concat("used: ", path);
                out.append(":");
                out.append(&decimal_text(*line as u64));
                out
            },
            Reason::Diff { present_in } => concat("diff: present in ", present_in),
            Reason::Plural { categories } => concat(
                "plural: missing ",
                &join(&owned_names(categories), ", "),
            ),
            Reason::Interpolations { variables, base_locale, base_variables } => {
                let mut out = concat(locale, " has ");
                out.append(&variable_list(variables));
                out.append(", ");
                out.append(base_locale);
                out.append(" has ");
                out.append(&variable_list(base_variables));
                out
            },
            Reason::Reserved { names } => join(names, ", "),
        }
    }
}

impl Clone for Reason {
    fn clone(&self) -> (r: Reason)
        ensures
            r@ == self@,
    {
        match self {
            Reason::Used { path, line } => Reason::Used { path: path.clone(), line: *line },
            Reason::Diff { present_in } => Reason::Diff { present_in: present_in.clone() },
            Reason::Plural { categories } => {
                let mut copy: Vec<&'static str> = Vec::new();
                let mut i: usize = 0;
                while i < categories.len()
                    invariant
                        i <= categories.len(),
                        copy.len() == i,
                        forall|j: int| 0 <= j < i ==> #[trigger] copy@[j] == categories@[j],
                    decreases categories.len() - i,
                {
                    copy.push(categories[i]);
                    i = i + 1;
                }
                assert(names(copy@) =~= names(categories@));
                Reason::Plural { categories: copy }
            },
            Reason::Interpolations { variables, base_locale, base_variables } =>
                Reason::Interpolations {
                variables: clone_texts(variables),
                base_locale: base_locale.clone(),
                base_variables: clone_texts(base_variables),
            },
            Reason::Reserved { names } => Reason::Reserved { names: clone_texts(names) },
        }
    }
}

// ------------------------------------------------------------------------ rows

/// One reported key, with the locale it belongs to.
#[derive(Debug, PartialEq, Eq)]
pub struct KeyRow {
    pub locale: String,
    pub key: String,
    pub value: Option<String>,
    pub reason: Option<Reason>,
}

/// What a [`KeyRow`] holds.
pub struct KeyRowV {
    pub locale: Seq<char>,
    pub key: Seq<char>,
    pub value: Option<Seq<char>>,
    pub reason: Option<ReasonV>,
}

impl View for KeyRow {
    type V = KeyRowV;

    open spec fn view(&self) -> KeyRowV {
        KeyRowV {
            locale: self.locale@,
            key: self.key@,
            value: match self.value {
                Some(v) => Some(v@),
                None => None,
            },
            reason: match self.reason {
                Some(r) => Some(r@),
                None => None,
            },
        }
    }
}

/// What a list of rows holds.
pub open spec fn rows_model(v: Seq<KeyRow>) -> Seq<KeyRowV> {
    Seq::new(v.len(), |i: int| v[i]@)
}

impl KeyRowV {
    /// The reason in words, nothing where there is none.
    pub open spec fn details(self) -> Seq<char> {
        match self.reason {
            Some(r) => r.text(self.locale),
            None => Seq::empty(),
        }
    }

    /// The value, nothing where there is none.
    pub open spec fn value_text(self) -> Seq<char> {
        match self.value {
            Some(v) => v,
            None => Seq::empty(),
        }
    }
}

impl Clone for KeyRow {
    fn clone(&self) -> (r: KeyRow)
        ensures
            r@ == self@,
    {
        KeyRow {
            locale: self.locale.clone(),
            key: self.key.clone(),
            value: match &self.value {
                Some(v) => Some(v.clone()),
                None => None,
            },
            reason: match &self.reason {
                Some(r) => Some(r.clone()),
                None => None,
            },
        }
    }
}

pub(crate) fn push_row(rows: &mut Vec<KeyRow>, row: KeyRow)
    ensures
        rows_model(final(rows)@) == rows_model(old(rows)@).push(row@),
{
    let ghost r = row@;
    rows.push(row);
    assert(rows_model(rows@) =~= rows_model(old(rows)@).push(r));
}

impl KeyRow {
    /// The reason as prose, for the text table. Empty when there is none.
    pub fn details(&self) -> (out: String)
        ensures
            out@ == self@.details(),
    {
        match &self.reason {
            Some(r) => r.to_text(&self.locale),
            None => {
                let out = String::new();
                assert(out@ =~= Seq::empty());
                out
            },
        }
    }

    pub(crate) fn value_or_empty(&self) -> (out: String)
        ensures
            out@ == self@.value_text(),
    {
        match &self.value {
            Some(v) => v.clone(),
            None => {
                let out = String::new();
                assert(out@ =~= Seq::empty());
                out
            },
        }
    }
}

// ----------------------------------------------------------------------- tables

/// What a list of table rows holds.
pub open spec fn cells_model(v: Seq<Vec<String>>) -> Seq<Seq<Seq<char>>> {
    Seq::new(v.len(), |i: int| texts(v[i]@))
}

/// The cell of a column, nothing where the row is too short.
pub open spec fn cell(row: Seq<Seq<char>>, i: int) -> Seq<char> {
    if 0 <= i < row.len() {
        row[i]
    } else {
        Seq::empty()
    }
}

/// The width of a column over its header and the first `n` rows.
pub open spec fn column_width(
    headers: Seq<Seq<char>>,
    rows: Seq<Seq<Seq<char>>>,
    n: int,
    i: int,
) -> int
    decreases n,
{
    if n <= 0 {
        headers[i].len() as int
    } else {
        let before = column_width(headers, rows, n - 1, i);
        let own = cell(rows[n - 1], i).len() as int;
        if own > before {
            own
        } else {
            before
        }
    }
}

/// The widths of all columns.
pub open spec fn column_widths(headers: Seq<Seq<char>>, rows: Seq<Seq<Seq<char>>>) -> Seq<int> {
    Seq::new(headers.len(), |i: int| column_width(headers, rows, rows.len() as int, i))
}

/// The character, `n` times.
pub open spec fn repeated(c: char, n: int) -> Seq<char> {
    Seq::new(
        if n > 0 {
            n as nat
        } else {
            0
        },
        |i: int| c,
    )
}

/// The first `n` cells of a row, each but the last of the table padded to the
/// width of its column and two spaces more.
pub open spec fn padded_cells(row: Seq<Seq<char>>, widths: Seq<int>, n: int) -> Seq<char>
    decreases n,
{
    if n <= 0 {
        Seq::empty()
    } else {
        let own = cell(row, n - 1);
        padded_cells(row, widths, n - 1) + own + if n < widths.len() {
            repeated(' ', widths[n - 1] + 2 - own.len())
        } else {
            Seq::empty()
        }
    }
}

/// One line of the table, without white space at its end.
pub open spec fn table_line(row: Seq<Seq<char>>, widths: Seq<int>) -> Seq<char> {
    trim_end_of(padded_cells(row, widths, widths.len() as int))
}

/// The rule under the first `n` columns.
pub open spec fn rule_upto(widths: Seq<int>, n: int) -> Seq<char>
    decreases n,
{
    if n <= 0 {
        Seq::empty()
    } else {
        rule_upto(widths, n - 1) + repeated('-', widths[n - 1]) + if n < widths.len() {
            "--"@
        } else {
            Seq::empty()
        }
    }
}

/// The lines of the first `n` rows.
pub open spec fn table_lines(rows: Seq<Seq<Seq<char>>>, widths: Seq<int>, n: int) -> Seq<char>
    decreases n,
{
    if n <= 0 {
        Seq::empty()
    } else {
        table_lines(rows, widths, n - 1) + table_line(rows[n - 1], widths) + "\n"@
    }
}

/// An aligned plain-text table under a title; only the title where there is no
/// row.
pub open spec fn table(
    title: Seq<char>,
    headers: Seq<Seq<char>>,
    rows: Seq<Seq<Seq<char>>>,
) -> Seq<char> {
    if rows.len() == 0 {
        title + ": none\n"@
    } else {
        let widths = column_widths(headers, rows);
        title + " ("@ + decimal(rows.len()) + " found)\n"@ + table_line(headers, widths) + "\n"@
            + rule_upto(widths, widths.len() as int) + "\n"@ + table_lines(
            rows,
            widths,
            rows.len() as int,
        )
    }
}

spec fn ints(v: Seq<usize>) -> Seq<int> {
    Seq::new(v.len(), |i: int| v[i] as int)
}

fn push_times(out: &mut String, c: char, n: usize)
    ensures
        final(out)@ == old(out)@ + repeated(c, n as int),
{
    let mut i: usize = 0;
    assert(out@ + repeated(c, 0) =~= out@);
    while i < n
        invariant
            i <= n,
            out@ == old(out)@ + repeated(c, i as int),
        decreases n - i,
    {
        out.push(c);
        i = i + 1;
        assert(out@ =~= old(out)@ + repeated(c, i as int));
    }
}

fn widths_of(headers: &Vec<String>, rows: &Vec<Vec<String>>) -> (widths: Vec<usize>)
    ensures
        ints(widths@) == column_widths(texts(headers@), cells_model(rows@)),
{
    let ghost heads = texts(headers@);
    let ghost cells = cells_model(rows@);
    let mut widths: Vec<usize> = Vec::new();
    let mut i: usize = 0;
    while i < headers.len()
        invariant
            i <= headers.len(),
            heads == texts(headers@),
            cells == cells_model(rows@),
            widths.len() == i,
            forall|j: int|
                0 <= j < i ==> #[trigger] widths@[j] == column_width(
                    heads,
                    cells,
                    cells.len() as int,
                    j,
                ),
        decreases headers.len() - i,
    {
        let mut w: usize = headers[i].as_str().unicode_len();
        let mut n: usize = 0;
        while n < rows.len()
            invariant
                n <= rows.len(),
                i < headers.len(),
                heads == texts(headers@),
                cells == cells_model(rows@),
                w == column_width(heads, cells, n as int, i as int),
            decreases rows.len() - n,
        {
            let row = &rows[n];
            assert(cells[n as int] == texts(row@));
            assert(cells[n as int].len() == row.len());
            if i < row.len() {
                let own = row[i].as_str().unicode_len();
                assert(cell(cells[n as int], i as int) == row@[i as int]@);
                if own > w {
                    w = own;
                }
            }
            n = n + 1;
        }
        widths.push(w);
        i = i + 1;
    }
    assert(ints(widths@) =~= column_widths(heads, cells));
    widths
}

/// The widths are at least those of the cells.
spec fn fits(row: Seq<Seq<char>>, widths: Seq<int>) -> bool {
    forall|i: int| 0 <= i < widths.len() ==> cell(row, i).len() <= #[trigger] widths[i]
}

proof fn widths_grow(headers: Seq<Seq<char>>, rows: Seq<Seq<Seq<char>>>, k: int, n: int, i: int)
    requires
        k <= n,
    ensures
        column_width(headers, rows, k, i) <= column_width(headers, rows, n, i),
    decreases n,
{
    if k < n && n > 0 {
        widths_grow(headers, rows, k, n - 1, i);
    }
}

fn line(row: &Vec<String>, widths: &Vec<usize>) -> (out: String)
    requires
        fits(texts(row@), ints(widths@)),
    ensures
        out@ == table_line(texts(row@), ints(widths@)),
{
    let ghost cells = texts(row@);
    let ghost w = ints(widths@);
    let mut s = String::new();
    let mut i: usize = 0;
    assert(s@ =~= padded_cells(cells, w, 0));
    assert(cells.len() == row.len() && w.len() == widths.len());
    while i < widths.len()
        invariant
            i <= widths.len(),
            cells == texts(row@),
            w == ints(widths@),
            cells.len() == row.len(),
            w.len() == widths.len(),
            fits(cells, w),
            s@ == padded_cells(cells, w, i as int),
        decreases widths.len() - i,
    {
        let ghost before = s@;
        let ghost own = cell(cells, i as int);
        assert(w[i as int] == widths@[i as int]);
        let mut used: usize = 0;
        if i < row.len() {
            s.append(&row[i]);
            used = row[i].as_str().unicode_len();
        }
        assert(s@ =~= before + own);
        assert(used == own.len());
        i = i + 1;
        if i < widths.len() {
            push_times(&mut s, ' ', widths[i - 1] - used);
            s.append("  ");
            proof {
                reveal_strlit("  ");
                assert(s@ =~= before + own + repeated(' ', w[i - 1] + 2 - own.len()));
            }
        }
        assert(s@ =~= padded_cells(cells, w, i as int));
    }
    trim_end(&s)
}

/// Renders rows as an aligned plain-text table. A table with rows has at least
/// one column.
pub fn render_table(title: &str, headers: &Vec<String>, rows: &Vec<Vec<String>>) -> (out: String)
    requires
        rows.len() > 0 ==> headers.len() > 0,
    ensures
        out@ == table(title@, texts(headers@), cells_model(rows@)),
{
    let ghost heads = texts(headers@);
    let ghost cells = cells_model(rows@);
    assert(cells.len() == rows.len());
    if rows.len() == 0 {
        return concat(title, ": none\n");
    }
    let widths = widths_of(headers, rows);
    let ghost w = ints(widths@);
    proof {
        assert(w.len() == widths.len() && w.len() == heads.len());
        assert forall|i: int| 0 <= i < w.len() implies cell(heads, i).len() <= #[trigger] w[i] by {
            widths_grow(heads, cells, 0, cells.len() as int, i);
        }
        assert forall|k: int| 0 <= k < cells.len() implies fits(#[trigger] cells[k], w) by {
            assert forall|i: int| 0 <= i < w.len() implies cell(cells[k], i).len()
                <= #[trigger] w[i] by {
                assert(cell(cells[k], i).len() <= column_width(heads, cells, k + 1, i));
                widths_grow(heads, cells, k + 1, cells.len() as int, i);
            }
        }
    }
    let mut out = concat(title, " (");
    out.append(&decimal_text(rows.len() as u64));
    out.append(" found)\n");
    out.append(&line(headers, &widths));
    out.append("\n");
    let ghost top = out@;
    let mut i: usize = 0;
    assert(out@ =~= top + rule_upto(w, 0));
    while i < widths.len()
        invariant
            i <= widths.len(),
            w == ints(widths@),
            w.len() == widths.len(),
            out@ == top + rule_upto(w, i as int),
        decreases widths.len() - i,
    {
        assert(w[i as int] == widths@[i as int]);
        push_times(&mut out, '-', widths[i]);
        i = i + 1;
        if i < widths.len() {
            out.append("--");
        }
        assert(out@ =~= top + rule_upto(w, i as int));
    }
    out.append("\n");
    let ghost head = out@;
    let mut n: usize = 0;
    assert(out@ =~= head + table_lines(cells, w, 0));
    while n < rows.len()
        invariant
            n <= rows.len(),
            cells == cells_model(rows@),
            cells.len() == rows.len(),
            w == ints(widths@),
            forall|k: int| 0 <= k < cells.len() ==> fits(#[trigger] cells[k], w),
            out@ == head + table_lines(cells, w, n as int),
        decreases rows.len() - n,
    {
        assert(cells[n as int] == texts(rows@[n as int]@));
        assert(fits(cells[n as int], w));
        out.append(&line(&rows[n], &widths));
        out.append("\n");
        n = n + 1;
        assert(out@ =~= head + table_lines(cells, w, n as int));
    }
    assert(out@ =~= table(title@, heads, cells));
    out
}

/// Three texts, as headers and rows are made of.
pub(crate) fn text_row(a: &str, b: &str, c: &str) -> (out: Vec<String>)
    ensures
        texts(out@) == seq![a@, b@, c@],
        out.len() == 3,
{
    let mut out: Vec<String> = Vec::new();
    out.push(a.to_owned());
    out.push(b.to_owned());
    out.push(c.to_owned());
    assert(texts(out@) =~= seq![a@, b@, c@]);
    out
}

/// The rows with one more, where there is one.
pub open spec fn with_row(rows: Seq<KeyRowV>, row: Option<KeyRowV>) -> Seq<KeyRowV> {
    match row {
        Some(r) => rows.push(r),
        None => rows,
    }
}

/// A key that the global rules ignore is ignored by every type of check, in
/// every locale.
pub proof fn a_global_rule_holds_everywhere(
    cfg: ConfigV,
    ty: IgnoreType,
    locale: Option<Seq<char>>,
    key: Seq<char>,
)
    requires
        any_accepts(cfg.ignore, key),
    ensures
        any_accepts(cfg.ignored(ty, locale), key),
{
    let i = choose|i: int| 0 <= i < cfg.ignore.len() && #[trigger] accepts(cfg.ignore[i], key);
    assert(accepts(cfg.ignored(ty, locale)[i], key));
}

} // verus!
