//! What happens to one config key.
//!
//! A setting that the tool does not have is dropped with its reason. `data`
//! and `search` are filtered one child at a time, so a section keeps the
//! settings that do exist.
use crate::migrate::lines::{
    are_extents, end_of, extents, lead_in_range, lead_of, settled_in_range, slice, sliced, Extent,
};
use crate::migrate::{dropped_model, Dropped, DroppedV};
use crate::text::{concat, decimal, decimal_text, push_text, same_text, texts};
use crate::yaml::{entries_model, is_null_scalar, null_scalar, Node, NodeV};
use vstd::prelude::*;

verus! {

/// What to do with one config key.
pub enum Decision {
    Keep,
    /// Filter the children instead. `data` and `search` only.
    Recurse,
    Drop(String),
}

/// What a [`Decision`] holds.
pub enum DecisionV {
    Keep,
    Recurse,
    Drop(Seq<char>),
}

impl View for Decision {
    type V = DecisionV;

    open spec fn view(&self) -> DecisionV {
        match self {
            Decision::Keep => DecisionV::Keep,
            Decision::Recurse => DecisionV::Recurse,
            Decision::Drop(reason) => DecisionV::Drop(reason@),
        }
    }
}

/// What happens to a top-level key with a value.
pub open spec fn top_decision(key: Seq<char>) -> DecisionV {
    if key == "base_locale"@ || key == "locales"@ || key == "ignore"@ || key == "ignore_missing"@
        || key == "ignore_unused"@ || key == "ignore_eq_base"@ || key
        == "ignore_inconsistent_interpolations"@ {
        DecisionV::Keep
    } else if key == "data"@ || key == "search"@ {
        DecisionV::Recurse
    } else if key == "internal_locale"@ {
        DecisionV::Drop("reports are English only"@)
    } else if key == "translation"@ {
        DecisionV::Drop("translation backends are out of scope"@)
    } else {
        DecisionV::Drop("i18n-tasks-rs has no such setting"@)
    }
}

/// What happens to a key of `data` with a value.
pub open spec fn data_decision(key: Seq<char>, value: NodeV) -> DecisionV {
    if key == "read"@ || key == "write"@ || key == "external"@ || key == "keep_order"@ {
        DecisionV::Keep
    } else if key == "router"@ {
        match value.text() {
            Some(name) => if name == "conservative_router"@ || name == "pattern_router"@ {
                DecisionV::Keep
            } else {
                DecisionV::Drop(
                    "`"@ + name
                        + "` is not one of conservative_router, pattern_router; the default conservative_router applies"@,
                )
            },
            None => DecisionV::Drop("the router must be a name"@),
        }
    } else if key == "adapter"@ {
        DecisionV::Drop("the only data adapter is the YAML file system"@)
    } else if key == "yaml"@ {
        DecisionV::Drop("the emitter has no options; it never folds lines (blocker B1)"@)
    } else if key == "json"@ {
        DecisionV::Drop("JSON locale files are not supported"@)
    } else {
        DecisionV::Drop("i18n-tasks-rs has no such setting"@)
    }
}

/// What happens to a key of `search` with a value.
pub open spec fn search_decision(key: Seq<char>) -> DecisionV {
    if key == "paths"@ || key == "exclude"@ || key == "only"@ || key == "relative_roots"@ || key
        == "relative_exclude_method_name_paths"@ {
        DecisionV::Keep
    } else if key == "scanners"@ {
        DecisionV::Drop("scanners are built in and picked by file extension; no class names"@)
    } else if key == "prism"@ {
        DecisionV::Drop("Prism is the only Ruby parser and Rails detection is always on"@)
    } else if key == "strict"@ {
        DecisionV::Drop(
            "a dynamic key always becomes a pattern; there is no strict mode (blocker B5)"@,
        )
    } else if key == "ast_matchers"@ {
        DecisionV::Drop("the Rails model and mailer-subject matchers are always on"@)
    } else {
        DecisionV::Drop("i18n-tasks-rs has no such setting"@)
    }
}

/// What happens to a key. `section` is `None` at the top level, otherwise the
/// parent key.
pub open spec fn decision(key: Seq<char>, value: NodeV, section: Option<Seq<char>>) -> DecisionV {
    if null_scalar(value) {
        DecisionV::Drop("it had no value"@)
    } else {
        match section {
            None => top_decision(key),
            Some(name) => if name == "data"@ {
                data_decision(key, value)
            } else if name == "search"@ {
                search_decision(key)
            } else {
                DecisionV::Drop("i18n-tasks-rs has no such setting"@)
            },
        }
    }
}

fn decide_top(key: &str) -> (d: Decision)
    ensures
        d@ == top_decision(key@),
{
    if same_text(key, "base_locale") || same_text(key, "locales") || same_text(key, "ignore")
        || same_text(key, "ignore_missing") || same_text(key, "ignore_unused") || same_text(
        key,
        "ignore_eq_base",
    ) || same_text(key, "ignore_inconsistent_interpolations") {
        Decision::Keep
    } else if same_text(key, "data") || same_text(key, "search") {
        Decision::Recurse
    } else if same_text(key, "internal_locale") {
        Decision::Drop("reports are English only".to_owned())
    } else if same_text(key, "translation") {
        Decision::Drop("translation backends are out of scope".to_owned())
    } else {
        Decision::Drop("i18n-tasks-rs has no such setting".to_owned())
    }
}

fn decide_data(key: &str, value: &Node) -> (d: Decision)
    ensures
        d@ == data_decision(key@, value@),
{
    if same_text(key, "read") || same_text(key, "write") || same_text(key, "external")
        || same_text(key, "keep_order") {
        Decision::Keep
    } else if same_text(key, "router") {
        match value.as_str() {
            Some(name) => {
                if same_text(name, "conservative_router") || same_text(name, "pattern_router") {
                    return Decision::Keep;
                }
                let mut reason = concat("`", name);
                reason.append(
                    "` is not one of conservative_router, pattern_router; the default conservative_router applies",
                );
                Decision::Drop(reason)
            },
            None => Decision::Drop("the router must be a name".to_owned()),
        }
    } else if same_text(key, "adapter") {
        Decision::Drop("the only data adapter is the YAML file system".to_owned())
    } else if same_text(key, "yaml") {
        Decision::Drop("the emitter has no options; it never folds lines (blocker B1)".to_owned())
    } else if same_text(key, "json") {
        Decision::Drop("JSON locale files are not supported".to_owned())
    } else {
        Decision::Drop("i18n-tasks-rs has no such setting".to_owned())
    }
}

fn decide_search(key: &str) -> (d: Decision)
    ensures
        d@ == search_decision(key@),
{
    if same_text(key, "paths") || same_text(key, "exclude") || same_text(key, "only")
        || same_text(key, "relative_roots") || same_text(
        key,
        "relative_exclude_method_name_paths",
    ) {
        Decision::Keep
    } else if same_text(key, "scanners") {
        Decision::Drop(
            "scanners are built in and picked by file extension; no class names".to_owned(),
        )
    } else if same_text(key, "prism") {
        Decision::Drop(
            "Prism is the only Ruby parser and Rails detection is always on".to_owned(),
        )
    } else if same_text(key, "strict") {
        Decision::Drop(
            "a dynamic key always becomes a pattern; there is no strict mode (blocker B5)".to_owned(),
        )
    } else if same_text(key, "ast_matchers") {
        Decision::Drop("the Rails model and mailer-subject matchers are always on".to_owned())
    } else {
        Decision::Drop("i18n-tasks-rs has no such setting".to_owned())
    }
}

/// Decides what happens to a key. A key without a value is dropped: keeping it
/// would give the tool a list that holds one empty path.
pub fn decide(key: &str, value: &Node, section: Option<&str>) -> (d: Decision)
    ensures
        d@ == decision(
            key@,
            value@,
            match section {
                Some(s) => Some(s@),
                None => None,
            },
        ),
{
    if is_null_scalar(value) {
        return Decision::Drop("it had no value".to_owned());
    }
    match section {
        None => decide_top(key),
        Some(name) => {
            if same_text(name, "data") {
                decide_data(key, value)
            } else if same_text(name, "search") {
                decide_search(key)
            } else {
                Decision::Drop("i18n-tasks-rs has no such setting".to_owned())
            }
        },
    }
}

// -------------------------------------------------------------------- one section

/// The lines on which keys stand.
pub open spec fn starts_of(entries: Seq<(NodeV, NodeV)>) -> Seq<int> {
    Seq::new(entries.len(), |i: int| entries[i].0.line())
}

/// The children of a section that are kept and dropped, among the first `n`.
pub struct FilteredV {
    pub blocks: Seq<Seq<char>>,
    pub dropped: Seq<DroppedV>,
}

/// The first `n` children of a section: those that stay as slices of the
/// source, the others with their reasons. The first child whose key is no text
/// is an error.
pub open spec fn filtered_upto(
    lines: Seq<Seq<char>>,
    section: Seq<char>,
    parent_line: int,
    section_end: int,
    entries: Seq<(NodeV, NodeV)>,
    n: nat,
    from: Seq<char>,
) -> Result<FilteredV, Seq<char>>
    decreases n,
{
    if n == 0 {
        Ok(FilteredV { blocks: Seq::empty(), dropped: Seq::empty() })
    } else {
        match filtered_upto(
            lines,
            section,
            parent_line,
            section_end,
            entries,
            (n - 1) as nat,
            from,
        ) {
            Err(e) => Err(e),
            Ok(before) => match entries[n - 1].0.text() {
                None => Err(from + ": non-string config key"@),
                Some(name) => Ok(
                    match decision(name, entries[n - 1].1, Some(section)) {
                        DecisionV::Drop(reason) => FilteredV {
                            dropped: before.dropped.push(
                                DroppedV {
                                    key: section + "."@ + name,
                                    line: entries[n - 1].0.line(),
                                    reason,
                                },
                            ),
                            ..before
                        },
                        _ => FilteredV {
                            blocks: before.blocks.push(
                                sliced(
                                    lines,
                                    lead_of(lines, starts_of(entries), n - 1, parent_line),
                                    end_of(
                                        lines,
                                        starts_of(entries),
                                        n - 1,
                                        parent_line,
                                        section_end,
                                    ),
                                ),
                            ),
                            ..before
                        },
                    },
                ),
            },
        }
    }
}

proof fn filtered_error_stays(
    lines: Seq<Seq<char>>,
    section: Seq<char>,
    parent_line: int,
    section_end: int,
    entries: Seq<(NodeV, NodeV)>,
    n: nat,
    m: nat,
    from: Seq<char>,
)
    requires
        n <= m,
        filtered_upto(lines, section, parent_line, section_end, entries, n, from) is Err,
    ensures
        filtered_upto(lines, section, parent_line, section_end, entries, m, from)
            == filtered_upto(lines, section, parent_line, section_end, entries, n, from),
    decreases m,
{
    if n < m {
        filtered_error_stays(
            lines,
            section,
            parent_line,
            section_end,
            entries,
            n,
            (m - 1) as nat,
            from,
        );
    }
}

/// Blocks under a section header.
pub open spec fn under_header(header: Seq<char>, blocks: Seq<Seq<char>>, n: int) -> Seq<char>
    decreases n,
{
    if n <= 0 {
        header
    } else {
        under_header(header, blocks, n - 1) + "\n"@ + blocks[n - 1]
    }
}

/// A place in a file, and what is wrong there.
pub open spec fn section_message(
    from: Seq<char>,
    line: int,
    section: Seq<char>,
    problem: Seq<char>,
) -> Seq<char> {
    from + ":"@ + decimal(line as nat) + ": `"@ + section + problem
}

/// A child stands on or above the line of its section.
pub open spec fn in_flow_style(entries: Seq<(NodeV, NodeV)>, parent_line: int) -> bool {
    exists|i: int| 0 <= i < entries.len() && (#[trigger] entries[i]).0.line() <= parent_line
}

/// `data` or `search` without the children that are dropped; no text where
/// none is left.
pub open spec fn nested_of(
    lines: Seq<Seq<char>>,
    section: Seq<char>,
    parent_line: int,
    value: NodeV,
    lead: int,
    section_end: int,
    from: Seq<char>,
) -> Result<(Option<Seq<char>>, Seq<DroppedV>), Seq<char>> {
    match value.entries() {
        None => Err(section_message(from, parent_line, section, "` must be a mapping"@)),
        Some(entries) => if in_flow_style(entries, parent_line) {
            Err(
                section_message(
                    from,
                    parent_line,
                    section,
                    "` is written in flow style (`{a: b}`). Rewrite it as an indented block and run the migration again."@,
                ),
            )
        } else {
            match filtered_upto(
                lines,
                section,
                parent_line,
                section_end,
                entries,
                entries.len(),
                from,
            ) {
                Err(e) => Err(e),
                Ok(all) => if all.blocks.len() == 0 {
                    Ok((None, all.dropped))
                } else {
                    Ok(
                        (
                            Some(
                                under_header(
                                    sliced(lines, lead, parent_line),
                                    all.blocks,
                                    all.blocks.len() as int,
                                ),
                            ),
                            all.dropped,
                        ),
                    )
                },
            }
        },
    }
}

/// Where every key stands in the text, so does what belongs to it.
pub proof fn extent_in_range(
    lines: Seq<Seq<char>>,
    starts: Seq<int>,
    i: int,
    above: int,
    level_end: int,
    count: int,
)
    requires
        0 <= i < starts.len(),
        forall|j: int| 0 <= j < starts.len() ==> 1 <= #[trigger] starts[j] <= count,
        level_end <= count,
    ensures
        1 <= lead_of(lines, starts, i, above) <= starts[i] <= end_of(
            lines,
            starts,
            i,
            above,
            level_end,
        ) <= count,
{
    lead_in_range(
        lines,
        starts[i],
        if i == 0 {
            above
        } else {
            starts[i - 1]
        },
    );
    if i + 1 < starts.len() {
        lead_in_range(lines, starts[i + 1], starts[i]);
        assert(starts[i + 1] <= count);
    }
    let limit = if i + 1 < starts.len() {
        lead_of(lines, starts, i + 1, above) - 1
    } else {
        level_end
    };
    settled_in_range(
        lines,
        starts[i],
        if limit > starts[i] {
            limit
        } else {
            starts[i]
        },
    );
}

fn problem_at(from: &str, line: usize, section: &str, problem: &str) -> (e: String)
    ensures
        e@ == section_message(from@, line as int, section@, problem@),
{
    let mut e = concat(from, ":");
    e.append(&decimal_text(line as u64));
    e.append(": `");
    e.append(section);
    e.append(problem);
    e
}

/// The lines on which keys stand.
pub fn key_lines(entries: &Vec<(Node, Node)>) -> (starts: Vec<usize>)
    ensures
        starts@.map_values(|n: usize| n as int) == starts_of(entries_model(entries@)),
{
    let mut starts: Vec<usize> = Vec::new();
    let mut i: usize = 0;
    while i < entries.len()
        invariant
            i <= entries.len(),
            starts.len() == i,
            forall|j: int| 0 <= j < i ==> #[trigger] starts@[j] == entries@[j].0@.line(),
        decreases entries.len() - i,
    {
        starts.push(entries[i].0.line());
        i = i + 1;
    }
    assert(starts@.map_values(|n: usize| n as int) =~= starts_of(entries_model(entries@)));
    starts
}

fn starts_in_flow(entries: &Vec<(Node, Node)>, parent_line: usize) -> (b: bool)
    ensures
        b == in_flow_style(entries_model(entries@), parent_line as int),
{
    let ghost model = entries_model(entries@);
    let mut i: usize = 0;
    while i < entries.len()
        invariant
            i <= entries.len(),
            model == entries_model(entries@),
            forall|j: int| 0 <= j < i ==> (#[trigger] model[j]).0.line() > parent_line,
        decreases entries.len() - i,
    {
        assert(model[i as int] == (entries@[i as int].0@, entries@[i as int].1@));
        if entries[i].0.line() <= parent_line {
            assert(model[i as int].0.line() <= parent_line);
            return true;
        }
        i = i + 1;
    }
    false
}

/// Renders `data` or `search` without the children that are dropped, which are
/// added to `dropped`. `None` where nothing under it survived.
pub fn nested(
    lines: &Vec<String>,
    section: &str,
    parent_line: usize,
    value: &Node,
    extent: &Extent,
    from: &str,
    dropped: &mut Vec<Dropped>,
) -> (r: Result<Option<String>, String>)
    requires
        1 <= extent.lead_start,
        extent.lead_start - 1 <= parent_line <= lines.len(),
        extent.body_end <= lines.len(),
        value@.entries() matches Some(entries) ==> forall|i: int|
            0 <= i < entries.len() ==> (#[trigger] entries[i]).0.line() <= lines.len(),
    ensures
        ({
            let want = nested_of(
                texts(lines@),
                section@,
                parent_line as int,
                value@,
                extent.lead_start as int,
                extent.body_end as int,
                from@,
            );
            match r {
                Ok(block) => {
                    &&& want matches Ok((text, more))
                    &&& text == match block {
                        Some(s) => Some(s@),
                        None => None,
                    }
                    &&& dropped_model(final(dropped)@) == dropped_model(old(dropped)@) + more
                },
                Err(e) => want matches Err(f) && e@ == f,
            }
        }),
{
    let entries = match value.as_map() {
        Some(entries) => entries,
        None => {
            return Err(problem_at(from, parent_line, section, "` must be a mapping"));
        },
    };
    if starts_in_flow(entries, parent_line) {
        return Err(
            problem_at(
                from,
                parent_line,
                section,
                "` is written in flow style (`{a: b}`). Rewrite it as an indented block and run the migration again.",
            ),
        );
    }
    let ghost model = texts(lines@);
    let ghost children = entries_model(entries@);
    let ghost above = parent_line as int;
    let ghost section_end = extent.body_end as int;
    let ghost start = dropped_model(dropped@);
    let starts = key_lines(entries);
    let parts = extents(lines, &starts, parent_line, extent.body_end);
    let mut blocks: Vec<String> = Vec::new();
    let mut i: usize = 0;
    assert(texts(blocks@) =~= Seq::empty());
    assert(start + Seq::<DroppedV>::empty() =~= start);
    assert(forall|j: int|
        0 <= j < children.len() ==> 1 <= #[trigger] starts_of(children)[j] <= lines.len()) by {
        assert forall|j: int| 0 <= j < children.len() implies 1 <= #[trigger] starts_of(
            children,
        )[j] <= lines.len() by {
            assert(children[j].0.line() > parent_line);
        }
    }
    while i < entries.len()
        invariant
            i <= entries.len() == parts.len() == children.len(),
            model == texts(lines@),
            children == entries_model(entries@),
            value@.entries() == Some(children),
            !in_flow_style(children, above),
            above == parent_line,
            section_end == extent.body_end <= lines.len(),
            are_extents(parts@, model, starts_of(children), above, section_end),
            forall|j: int|
                0 <= j < children.len() ==> 1 <= #[trigger] starts_of(children)[j] <= lines.len(),
            filtered_upto(model, section@, above, section_end, children, i as nat, from@) matches Ok(
                all,
            ) && all.blocks == texts(blocks@) && dropped_model(dropped@) == start + all.dropped,
        ensures
            i == entries.len(),
        decreases entries.len() - i,
    {
        let entry = &entries[i];
        assert(children[i as int] == (entry.0@, entry.1@));
        let ghost before = filtered_upto(
            model,
            section@,
            above,
            section_end,
            children,
            i as nat,
            from@,
        )->Ok_0;
        let name = match entry.0.as_str() {
            Some(name) => name,
            None => {
                proof {
                    filtered_error_stays(
                        model,
                        section@,
                        above,
                        section_end,
                        children,
                        (i + 1) as nat,
                        children.len(),
                        from@,
                    );
                }
                return Err(concat(from, ": non-string config key"));
            },
        };
        match decide(name, &entry.1, Some(section)) {
            Decision::Drop(reason) => {
                let mut key = concat(section, ".");
                key.append(name);
                let item = Dropped { key, line: entry.0.line(), reason };
                let ghost already = dropped_model(dropped@);
                dropped.push(item);
                assert(dropped_model(dropped@) =~= already.push(item@));
                assert(already.push(item@) =~= start + before.dropped.push(item@));
            },
            _ => {
                proof {
                    extent_in_range(
                        model,
                        starts_of(children),
                        i as int,
                        above,
                        section_end,
                        lines.len() as int,
                    );
                }
                let part = parts[i];
                push_text(&mut blocks, slice(lines, part.lead_start, part.body_end));
            },
        }
        i = i + 1;
    }
    let ghost all = filtered_upto(
        model,
        section@,
        above,
        section_end,
        children,
        children.len(),
        from@,
    )->Ok_0;
    assert(all.blocks.len() == blocks.len());
    if blocks.len() == 0 {
        return Ok(None);
    }
    let mut out = slice(lines, extent.lead_start, parent_line);
    let ghost header = out@;
    let mut k: usize = 0;
    while k < blocks.len()
        invariant
            k <= blocks.len(),
            all.blocks == texts(blocks@),
            out@ == under_header(header, all.blocks, k as int),
        decreases blocks.len() - k,
    {
        assert(all.blocks[k as int] == blocks@[k as int]@);
        out.append("\n");
        out.append(&blocks[k]);
        k = k + 1;
    }
    Ok(Some(out))
}

} // verus!
