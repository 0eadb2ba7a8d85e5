//! The key pattern language, run as a backtracking program over the bytes of
//! a key.
//!
//! * `*` stands for any text, dots included;
//! * `*:` for at least one character, without a dot;
//! * `:` for one whole segment of the key;
//! * `{a, b}` for one of the alternatives, and remembers what it stood for.
use crate::text::{
    chars_of, position_from, position_of, split, split_of, text_between, texts, trim, trim_of,
};
use vstd::prelude::*;
use vstd::utf8::{encode_utf8, encode_utf8_decode_utf8};

verus! {

// --------------------------------------------------------------- the language

/// One element of a pattern. A literal is held as its bytes.
pub enum Atom {
    Lit(Seq<u8>),
    Star,
    PartialSeg,
    WholeSeg,
}

/// One item of a pattern: an element, or a numbered group of alternatives.
pub enum Item {
    One(Atom),
    Group(int, Seq<Seq<Atom>>),
}

/// The literal that is pending when an element of another kind follows.
pub open spec fn flush(lit: Seq<char>) -> Seq<Atom> {
    if lit.len() == 0 {
        Seq::empty()
    } else {
        seq![Atom::Lit(encode_utf8(lit))]
    }
}

/// The elements of `src` from `i` on, where the literal `lit` is pending.
pub open spec fn atoms_from(src: Seq<char>, i: int, lit: Seq<char>) -> Seq<Atom>
    decreases src.len() - i,
{
    if i < 0 || i >= src.len() {
        flush(lit)
    } else if src[i] == '*' {
        if i + 1 < src.len() && src[i + 1] == ':' {
            flush(lit) + (seq![Atom::PartialSeg] + atoms_from(src, i + 2, Seq::empty()))
        } else {
            flush(lit) + (seq![Atom::Star] + atoms_from(src, i + 1, Seq::empty()))
        }
    } else if src[i] == ':' {
        flush(lit) + (seq![Atom::WholeSeg] + atoms_from(src, i + 1, Seq::empty()))
    } else {
        atoms_from(src, i + 1, lit.push(src[i]))
    }
}

/// The alternatives of a group whose braces hold `body`.
pub open spec fn alternatives_of(body: Seq<char>) -> Seq<Seq<Atom>> {
    split_of(trim_of(body), ',').map_values(
        |alt: Seq<char>| atoms_from(trim_of(alt), 0, Seq::empty()),
    )
}

/// Elements as items.
pub open spec fn as_items(atoms: Seq<Atom>) -> Seq<Item> {
    atoms.map_values(|a: Atom| Item::One(a))
}

/// Where the first `}` after the `{` at `i` stands, or the length of `src`.
pub open spec fn closing_brace(src: Seq<char>, i: int) -> int {
    i + 1 + position_of(src.skip(i + 1), '}')
}

/// The items of `src` from `i` on, where the literal `lit` is pending and the
/// next group has number `group`. A group ends at the first `}`; a `{` without
/// one is an ordinary character.
pub open spec fn items_from(src: Seq<char>, i: int, lit: Seq<char>, group: int) -> Seq<Item>
    decreases src.len() - i,
{
    let close = closing_brace(src, i);
    if i < 0 || i >= src.len() {
        as_items(flush(lit))
    } else if src[i] == '{' && i < close < src.len() {
        as_items(flush(lit)) + (seq![
            Item::Group(group, alternatives_of(src.subrange(i + 1, close))),
        ] + items_from(src, close + 1, Seq::empty(), group + 1))
    } else if src[i] == '*' {
        if i + 1 < src.len() && src[i + 1] == ':' {
            as_items(flush(lit)) + (seq![Item::One(Atom::PartialSeg)] + items_from(
                src,
                i + 2,
                Seq::empty(),
                group,
            ))
        } else {
            as_items(flush(lit)) + (seq![Item::One(Atom::Star)] + items_from(
                src,
                i + 1,
                Seq::empty(),
                group,
            ))
        }
    } else if src[i] == ':' {
        as_items(flush(lit)) + (seq![Item::One(Atom::WholeSeg)] + items_from(
            src,
            i + 1,
            Seq::empty(),
            group,
        ))
    } else {
        items_from(src, i + 1, lit.push(src[i]), group)
    }
}

/// The items of a pattern.
pub open spec fn items_of(source: Seq<char>) -> Seq<Item> {
    items_from(source, 0, Seq::empty(), 0)
}

/// How many groups the items hold.
pub open spec fn group_count_of(items: Seq<Item>) -> int
    decreases items.len(),
{
    if items.len() == 0 {
        0
    } else {
        group_count_of(items.skip(1)) + if items[0] is Group {
            1int
        } else {
            0int
        }
    }
}

/// The byte that separates two segments.
pub open spec fn dot() -> u8 {
    46
}

/// No dot stands from `i` up to `j`.
pub open spec fn no_dot(s: Seq<u8>, i: int, j: int) -> bool {
    forall|k: int| i <= k < j ==> s[k] != dot()
}

/// The element stands for the bytes of `s` from `i` to `j`.
pub open spec fn atom_spans(a: Atom, s: Seq<u8>, i: int, j: int) -> bool {
    &&& 0 <= i <= j <= s.len()
    &&& match a {
        Atom::Lit(l) => s.subrange(i, j) == l,
        Atom::Star => true,
        Atom::PartialSeg => i < j && no_dot(s, i, j),
        Atom::WholeSeg => {
            &&& i < j
            &&& no_dot(s, i, j)
            &&& i == 0 || s[i - 1] == dot()
            &&& j == s.len() || s[j] == dot()
        },
    }
}

/// The elements, one after the other, stand for the bytes from `i` to `j`.
pub open spec fn atoms_span(atoms: Seq<Atom>, s: Seq<u8>, i: int, j: int) -> bool
    decreases atoms.len(),
{
    if atoms.len() == 0 {
        i == j
    } else {
        exists|m: int|
            #[trigger] atom_spans(atoms[0], s, i, m) && atoms_span(atoms.skip(1), s, m, j)
    }
}

/// The item stands for the bytes from `i` to `j`.
pub open spec fn item_spans(item: Item, s: Seq<u8>, i: int, j: int) -> bool {
    match item {
        Item::One(a) => atom_spans(a, s, i, j),
        Item::Group(_, alts) => exists|k: int|
            0 <= k < alts.len() && #[trigger] atoms_span(alts[k], s, i, j),
    }
}

/// The items, one after the other, stand for the bytes from `i` to the end.
pub open spec fn items_span(items: Seq<Item>, s: Seq<u8>, i: int) -> bool
    decreases items.len(),
{
    if items.len() == 0 {
        i == s.len()
    } else {
        exists|m: int|
            #[trigger] item_spans(items[0], s, i, m) && items_span(items.skip(1), s, m)
    }
}

/// The pattern `source` matches the whole of `key`.
pub open spec fn accepts(source: Seq<char>, key: Seq<char>) -> bool {
    items_span(items_of(source), encode_utf8(key), 0)
}

// ------------------------------------------------------ the order of the search

/// Per group, where what it stands for starts and ends.
pub type Spans = Seq<Option<(int, int)>>;

/// The end of the segment that holds `pos`.
pub open spec fn segment_end(s: Seq<u8>, pos: int) -> int
    decreases s.len() - pos,
{
    if 0 <= pos < s.len() && s[pos] != dot() {
        segment_end(s, pos + 1)
    } else {
        pos
    }
}

/// Where an element that starts at `pos` can end, in the order in which the
/// search tries it: the longest first for `*`, the shortest first for `*:`.
pub open spec fn ends(a: Atom, s: Seq<u8>, pos: int) -> Seq<int> {
    match a {
        Atom::Lit(l) => if pos + l.len() <= s.len() && s.subrange(pos, pos + l.len()) == l {
            seq![pos + l.len()]
        } else {
            Seq::empty()
        },
        Atom::Star => Seq::new((s.len() - pos + 1) as nat, |k: int| s.len() - k),
        Atom::PartialSeg => Seq::new(
            (segment_end(s, pos) - pos) as nat,
            |k: int| pos + 1 + k,
        ),
        Atom::WholeSeg => if (pos == 0 || s[pos - 1] == dot()) && segment_end(s, pos) > pos {
            seq![segment_end(s, pos)]
        } else {
            Seq::empty()
        },
    }
}

/// The groups with `group` opened at `pos`.
pub open spec fn opened(caps: Spans, group: int, pos: int) -> Spans {
    caps.update(group, Some((pos, pos)))
}

/// The groups with `group` closed at `pos`.
pub open spec fn closed_at(caps: Spans, group: int, pos: int) -> Spans {
    caps.update(
        group,
        Some(
            (
                match caps[group] {
                    Some((start, _)) => start,
                    None => pos,
                },
                pos,
            ),
        ),
    )
}

/// The search from `pos` on: inside the group `open.0`, of which the elements
/// `open.1` are left, and then through `items`. The first success counts.
pub open spec fn walk(
    open: Option<(int, Seq<Atom>)>,
    items: Seq<Item>,
    s: Seq<u8>,
    pos: int,
    caps: Spans,
) -> Option<Spans>
    decreases
            2 * items.len(),
            (match open {
                Some((_, atoms)) => 1 + atoms.len(),
                None => 0,
            }),
            0int,
{
    match open {
        Some((group, atoms)) => if atoms.len() == 0 {
            walk(None, items, s, pos, closed_at(caps, group, pos))
        } else {
            walk_ends(Some((group, atoms.skip(1))), items, s, ends(atoms[0], s, pos), 0, caps)
        },
        None => if items.len() == 0 {
            if pos == s.len() {
                Some(caps)
            } else {
                None
            }
        } else {
            match items[0] {
                Item::One(a) => walk_ends(None, items.skip(1), s, ends(a, s, pos), 0, caps),
                Item::Group(group, alts) => walk_alternatives(
                    group,
                    alts,
                    0,
                    items.skip(1),
                    s,
                    pos,
                    opened(caps, group, pos),
                ),
            }
        },
    }
}

/// The first success among the ends from number `k` on.
pub open spec fn walk_ends(
    open: Option<(int, Seq<Atom>)>,
    items: Seq<Item>,
    s: Seq<u8>,
    at: Seq<int>,
    k: int,
    caps: Spans,
) -> Option<Spans>
    decreases
            2 * items.len(),
            (match open {
                Some((_, atoms)) => 1 + atoms.len(),
                None => 0,
            }),
            1 + at.len() - k,
{
    if k < 0 || k >= at.len() {
        None
    } else {
        match walk(open, items, s, at[k], caps) {
            Some(found) => Some(found),
            None => walk_ends(open, items, s, at, k + 1, caps),
        }
    }
}

/// The first success among the alternatives from number `k` on.
pub open spec fn walk_alternatives(
    group: int,
    alts: Seq<Seq<Atom>>,
    k: int,
    items: Seq<Item>,
    s: Seq<u8>,
    pos: int,
    caps: Spans,
) -> Option<Spans>
    decreases 2 * items.len() + 1, 0int, 1 + alts.len() - k,
{
    if k < 0 || k >= alts.len() {
        None
    } else {
        match walk(Some((group, alts[k])), items, s, pos, caps) {
            Some(found) => Some(found),
            None => walk_alternatives(group, alts, k + 1, items, s, pos, caps),
        }
    }
}

/// No group has taken part yet.
pub open spec fn blank(n: int) -> Spans {
    Seq::new(n as nat, |i: int| None::<(int, int)>)
}

/// What the groups of `source` stand for in `key`, where it matches.
pub open spec fn captures_of(source: Seq<char>, key: Seq<char>) -> Option<Spans> {
    let items = items_of(source);
    walk(None, items, encode_utf8(key), 0, blank(group_count_of(items)))
}

// ---------------------------------------------------------------- the program

/// One instruction of a compiled pattern.
pub enum Instr {
    Step(Atom),
    /// Try each target in order.
    Split(Seq<int>),
    Jmp(int),
    CapStart(int),
    CapEnd(int),
    /// Succeed at the end of the key only.
    Match,
}

/// Runs the program from `pc`. Every jump goes forward.
pub open spec fn vm(prog: Seq<Instr>, pc: int, s: Seq<u8>, pos: int, caps: Spans) -> Option<Spans>
    decreases prog.len() - pc, 0int,
{
    if pc < 0 || pc >= prog.len() {
        None
    } else {
        match prog[pc] {
            Instr::Match => if pos == s.len() {
                Some(caps)
            } else {
                None
            },
            Instr::Step(a) => vm_ends(prog, pc + 1, s, ends(a, s, pos), 0, caps),
            Instr::Split(targets) => vm_split(prog, pc, s, pos, targets, 0, caps),
            Instr::Jmp(t) => if pc < t < prog.len() {
                vm(prog, t, s, pos, caps)
            } else {
                None
            },
            Instr::CapStart(i) => if 0 <= i < caps.len() {
                vm(prog, pc + 1, s, pos, opened(caps, i, pos))
            } else {
                None
            },
            Instr::CapEnd(i) => if 0 <= i < caps.len() {
                vm(prog, pc + 1, s, pos, closed_at(caps, i, pos))
            } else {
                None
            },
        }
    }
}

/// The program from `pc` on, tried at each of the places from the `k`-th on.
pub open spec fn vm_ends(
    prog: Seq<Instr>,
    pc: int,
    s: Seq<u8>,
    at: Seq<int>,
    k: int,
    caps: Spans,
) -> Option<Spans>
    decreases prog.len() - pc, 1 + at.len() - k,
{
    if k < 0 || k >= at.len() {
        None
    } else {
        match vm(prog, pc, s, at[k], caps) {
            Some(found) => Some(found),
            None => vm_ends(prog, pc, s, at, k + 1, caps),
        }
    }
}

/// The program, tried from each of the targets from the `k`-th on. A jump only
/// leads forward.
pub open spec fn vm_split(
    prog: Seq<Instr>,
    pc: int,
    s: Seq<u8>,
    pos: int,
    targets: Seq<int>,
    k: int,
    caps: Spans,
) -> Option<Spans>
    decreases prog.len() - pc - 1, 1 + targets.len() - k,
{
    if k < 0 || k >= targets.len() || pc >= prog.len() {
        None
    } else if targets[k] <= pc || targets[k] >= prog.len() {
        vm_split(prog, pc, s, pos, targets, k + 1, caps)
    } else {
        match vm(prog, targets[k], s, pos, caps) {
            Some(found) => Some(found),
            None => vm_split(prog, pc, s, pos, targets, k + 1, caps),
        }
    }
}

/// The instructions of elements.
pub open spec fn atoms_code(atoms: Seq<Atom>) -> Seq<Instr> {
    atoms.map_values(|a: Atom| Instr::Step(a))
}

/// The instructions of alternatives, each followed by a jump to `end`.
pub open spec fn alts_code(alts: Seq<Seq<Atom>>, end: int) -> Seq<Instr>
    decreases alts.len(),
{
    if alts.len() == 0 {
        Seq::empty()
    } else {
        alts_code(alts.drop_last(), end) + atoms_code(alts.last()).push(Instr::Jmp(end))
    }
}

/// Where the code of each alternative starts, the first one at `base`.
pub open spec fn alt_starts(alts: Seq<Seq<Atom>>, base: int) -> Seq<int> {
    Seq::new(alts.len(), |k: int| base + alts_code(alts.take(k), 0).len())
}

/// The instructions of one item at address `base`.
pub open spec fn item_code(item: Item, base: int) -> Seq<Instr> {
    match item {
        Item::One(a) => seq![Instr::Step(a)],
        Item::Group(group, alts) => {
            let end = base + 2 + alts_code(alts, 0).len();
            seq![Instr::CapStart(group), Instr::Split(alt_starts(alts, base + 2))] + alts_code(
                alts,
                end,
            ) + seq![Instr::CapEnd(group)]
        },
    }
}

/// The instructions of items at address `base`.
pub open spec fn code(items: Seq<Item>, base: int) -> Seq<Instr>
    decreases items.len(),
{
    if items.len() == 0 {
        Seq::empty()
    } else {
        let first = item_code(items[0], base);
        first + code(items.skip(1), base + first.len())
    }
}

/// The program of a pattern.
pub open spec fn program_of(source: Seq<char>) -> Seq<Instr> {
    code(items_of(source), 0).push(Instr::Match)
}

// ----------------------------------------------------- the program is the walk

proof fn alts_code_len(alts: Seq<Seq<Atom>>, e1: int, e2: int)
    ensures
        alts_code(alts, e1).len() == alts_code(alts, e2).len(),
    decreases alts.len(),
{
    if alts.len() > 0 {
        alts_code_len(alts.drop_last(), e1, e2);
    }
}

/// The code of alternative `k` stands where `alt_starts` says.
proof fn alt_in_code(alts: Seq<Seq<Atom>>, k: int, end: int)
    requires
        0 <= k < alts.len(),
    ensures
        ({
            let at = alts_code(alts.take(k), 0).len() as int;
            let all = alts_code(alts, end);
            let n = alts[k].len();
            &&& at + n + 1 <= all.len()
            &&& forall|j: int| 0 <= j < n ==> #[trigger] all[at + j] == Instr::Step(alts[k][j])
            &&& all[at + n] == Instr::Jmp(end)
        }),
    decreases alts.len(),
{
    let all = alts_code(alts, end);
    let head = alts_code(alts.drop_last(), end);
    let at = alts_code(alts.take(k), 0).len() as int;
    if k == alts.len() - 1 {
        assert(alts.take(k) =~= alts.drop_last());
        alts_code_len(alts.drop_last(), end, 0);
        assert forall|j: int| 0 <= j < alts[k].len() implies #[trigger] all[at + j]
            == Instr::Step(alts[k][j]) by {
            assert(all[at + j] == atoms_code(alts.last()).push(Instr::Jmp(end))[j]);
        }
    } else {
        alt_in_code(alts.drop_last(), k, end);
        assert(alts.drop_last().take(k) =~= alts.take(k));
        assert(alts.drop_last()[k] == alts[k]);
        assert forall|j: int| 0 <= j < alts[k].len() implies #[trigger] all[at + j]
            == Instr::Step(alts[k][j]) by {
            assert(all[at + j] == head[at + j]);
        }
        assert(all[at + alts[k].len()] == head[at + alts[k].len()]);
    }
}

/// Every group of the items has a number below `n`.
pub open spec fn groups_below(items: Seq<Item>, n: int) -> bool {
    forall|i: int|
        0 <= i < items.len() ==> (#[trigger] items[i] matches Item::Group(g, _) ==> 0 <= g < n)
}

proof fn vm_ends_is_walk(
    prog: Seq<Instr>,
    pc: int,
    open: Option<(int, Seq<Atom>)>,
    items: Seq<Item>,
    s: Seq<u8>,
    at: Seq<int>,
    k: int,
    caps: Spans,
)
    requires
        forall|pos: int|
            #![trigger vm(prog, pc, s, pos, caps)]
            vm(prog, pc, s, pos, caps) == walk(open, items, s, pos, caps),
    ensures
        vm_ends(prog, pc, s, at, k, caps) == walk_ends(open, items, s, at, k, caps),
    decreases at.len() - k,
{
    if 0 <= k < at.len() {
        vm_ends_is_walk(prog, pc, open, items, s, at, k + 1, caps);
        assert(vm(prog, pc, s, at[k], caps) == walk(open, items, s, at[k], caps));
    }
}

/// Inside alternative `k` of a group, with `atoms` left to run.
proof fn alt_is_walk(
    prog: Seq<Instr>,
    pc: int,
    end: int,
    group: int,
    atoms: Seq<Atom>,
    items: Seq<Item>,
    s: Seq<u8>,
    pos: int,
    caps: Spans,
)
    requires
        0 <= pc,
        pc + atoms.len() < end < prog.len(),
        forall|j: int| 0 <= j < atoms.len() ==> #[trigger] prog[pc + j] == Instr::Step(atoms[j]),
        prog[pc + atoms.len()] == Instr::Jmp(end),
        prog[end] == Instr::CapEnd(group),
        0 <= group < caps.len(),
        forall|p: int, c: Spans|
            #![trigger vm(prog, end + 1, s, p, c)]
            c.len() == caps.len() ==> vm(prog, end + 1, s, p, c) == walk(None, items, s, p, c),
    ensures
        vm(prog, pc, s, pos, caps) == walk(Some((group, atoms)), items, s, pos, caps),
    decreases atoms.len(),
{
    if atoms.len() == 0 {
        assert(vm(prog, pc, s, pos, caps) == vm(prog, end, s, pos, caps));
        assert(vm(prog, end, s, pos, caps) == vm(
            prog,
            end + 1,
            s,
            pos,
            closed_at(caps, group, pos),
        ));
    } else {
        assert(prog[pc + 0] == Instr::Step(atoms[0]));
        let rest = atoms.skip(1);
        assert forall|j: int| 0 <= j < rest.len() implies #[trigger] prog[pc + 1 + j]
            == Instr::Step(rest[j]) by {
            assert(prog[pc + (1 + j)] == Instr::Step(atoms[1 + j]));
        }
        assert forall|p: int|
            #![trigger vm(prog, pc + 1, s, p, caps)]
            vm(prog, pc + 1, s, p, caps) == walk(Some((group, rest)), items, s, p, caps) by {
            alt_is_walk(prog, pc + 1, end, group, rest, items, s, p, caps);
        }
        vm_ends_is_walk(
            prog,
            pc + 1,
            Some((group, rest)),
            items,
            s,
            ends(atoms[0], s, pos),
            0,
            caps,
        );
    }
}

proof fn split_is_walk(
    prog: Seq<Instr>,
    pc: int,
    group: int,
    alts: Seq<Seq<Atom>>,
    k: int,
    items: Seq<Item>,
    s: Seq<u8>,
    pos: int,
    caps: Spans,
)
    requires
        0 <= k <= alts.len(),
        0 <= pc,
        0 <= group < caps.len(),
        ({
            let end = pc + 1 + alts_code(alts, 0).len();
            &&& end < prog.len()
            &&& prog.subrange(pc + 1, end) == alts_code(alts, end)
            &&& prog[end] == Instr::CapEnd(group)
            &&& forall|p: int, c: Spans|
                #![trigger vm(prog, end + 1, s, p, c)]
                c.len() == caps.len() ==> vm(prog, end + 1, s, p, c) == walk(None, items, s, p, c)
        }),
    ensures
        vm_split(prog, pc, s, pos, alt_starts(alts, pc + 1), k, caps) == walk_alternatives(
            group,
            alts,
            k,
            items,
            s,
            pos,
            caps,
        ),
    decreases alts.len() - k,
{
    if k < alts.len() {
        split_is_walk(prog, pc, group, alts, k + 1, items, s, pos, caps);
        let end = pc + 1 + alts_code(alts, 0).len();
        alt_in_code(alts, k, end);
        alts_code_len(alts, 0, end);
        let at = alts_code(alts.take(k), 0).len() as int;
        let start = pc + 1 + at;
        let part = prog.subrange(pc + 1, end);
        assert forall|j: int| 0 <= j < alts[k].len() implies #[trigger] prog[start + j]
            == Instr::Step(alts[k][j]) by {
            assert(part[at + j] == prog[start + j]);
        }
        assert(part[at + alts[k].len()] == prog[start + alts[k].len()]);
        alt_is_walk(prog, start, end, group, alts[k], items, s, pos, caps);
        assert(alt_starts(alts, pc + 1)[k] == start);
    }
}

/// A program that holds the code of the items at `base`, and then `Match`,
/// finds what the walk through the items finds.
proof fn code_is_walk(
    prog: Seq<Instr>,
    base: int,
    items: Seq<Item>,
    s: Seq<u8>,
    pos: int,
    caps: Spans,
)
    requires
        0 <= base <= prog.len(),
        prog.skip(base) == code(items, base).push(Instr::Match),
        groups_below(items, caps.len() as int),
    ensures
        vm(prog, base, s, pos, caps) == walk(None, items, s, pos, caps),
    decreases items.len(),
{
    let here = prog.skip(base);
    assert(here.len() == prog.len() - base && here.len() >= 1);
    if items.len() == 0 {
        assert(here[0] == prog[base]);
        assert(here[0] == Instr::Match);
    } else {
        let rest = items.skip(1);
        let first = item_code(items[0], base);
        let next = base + first.len();
        assert(prog.skip(next) =~= code(rest, next).push(Instr::Match)) by {
            assert(here =~= first + code(rest, next).push(Instr::Match));
            assert(here.len() == first.len() + code(rest, next).len() + 1);
            assert(prog.skip(next) =~= here.skip(first.len() as int));
        }
        assert(here.len() == first.len() + code(rest, next).len() + 1);
        assert(forall|i: int| 0 <= i < first.len() ==> here[i] == first[i]);
        assert(groups_below(rest, caps.len() as int)) by {
            assert forall|i: int| 0 <= i < rest.len() implies (#[trigger] rest[i] matches Item::Group(
                g,
                _,
            ) ==> 0 <= g < caps.len()) by {
                assert(rest[i] == items[i + 1]);
            }
        }
        assert forall|p: int, c: Spans|
            #![trigger vm(prog, next, s, p, c)]
            c.len() == caps.len() implies vm(prog, next, s, p, c) == walk(None, rest, s, p, c) by {
            code_is_walk(prog, next, rest, s, p, c);
        }
        assert(here[0] == prog[base]);
        match items[0] {
            Item::One(a) => {
                assert(first[0] == Instr::Step(a));
                vm_ends_is_walk(prog, next, None, rest, s, ends(a, s, pos), 0, caps);
            },
            Item::Group(group, alts) => {
                let end = base + 2 + alts_code(alts, 0).len();
                alts_code_len(alts, 0, end);
                assert(items[0] is Group);
                assert(first[0] == Instr::CapStart(group));
                assert(first[1] == Instr::Split(alt_starts(alts, base + 2)));
                assert(here[1] == prog[base + 1]);
                assert(here[end - base] == prog[end]);
                assert(first[end - base] == Instr::CapEnd(group));
                assert(next == end + 1);
                assert(prog.subrange(base + 2, end) =~= alts_code(alts, end)) by {
                    assert forall|i: int| 0 <= i < end - base - 2 implies prog.subrange(
                        base + 2,
                        end,
                    )[i] == alts_code(alts, end)[i] by {
                        assert(here[i + 2] == prog[base + 2 + i]);
                        assert(first[i + 2] == alts_code(alts, end)[i]);
                    }
                }
                split_is_walk(
                    prog,
                    base + 1,
                    group,
                    alts,
                    0,
                    rest,
                    s,
                    pos,
                    opened(caps, group, pos),
                );
                let inside = opened(caps, group, pos);
                assert(vm(prog, base, s, pos, caps) == vm(prog, base + 1, s, pos, inside));
                assert(vm(prog, base + 1, s, pos, inside) == vm_split(
                    prog,
                    base + 1,
                    s,
                    pos,
                    alt_starts(alts, base + 2),
                    0,
                    inside,
                ));
            },
        }
    }
}

proof fn groups_are_numbered(src: Seq<char>, i: int, lit: Seq<char>, group: int)
    requires
        0 <= group,
    ensures
        groups_below(
            items_from(src, i, lit, group),
            group + group_count_of(items_from(src, i, lit, group)),
        ),
    decreases src.len() - i,
{
    let head = as_items(flush(lit));
    let close = closing_brace(src, i);
    if i < 0 || i >= src.len() {
        count_of_flush(lit, Seq::empty());
        assert(head + Seq::<Item>::empty() =~= head);
    } else if src[i] == '{' && i < close < src.len() {
        let tail = items_from(src, close + 1, Seq::empty(), group + 1);
        groups_are_numbered(src, close + 1, Seq::empty(), group + 1);
        let g = seq![Item::Group(group, alternatives_of(src.subrange(i + 1, close)))] + tail;
        assert(g.skip(1) =~= tail);
        count_is_natural(tail);
        count_of_flush(lit, g);
    } else if src[i] == '*' {
        let partial = i + 1 < src.len() && src[i + 1] == ':';
        let next = if partial {
            i + 2
        } else {
            i + 1
        };
        let tail = items_from(src, next, Seq::empty(), group);
        groups_are_numbered(src, next, Seq::empty(), group);
        let one = seq![
            Item::One(
                if partial {
                    Atom::PartialSeg
                } else {
                    Atom::Star
                },
            ),
        ] + tail;
        assert(one.skip(1) =~= tail);
        count_of_flush(lit, one);
    } else if src[i] == ':' {
        let tail = items_from(src, i + 1, Seq::empty(), group);
        groups_are_numbered(src, i + 1, Seq::empty(), group);
        let one = seq![Item::One(Atom::WholeSeg)] + tail;
        assert(one.skip(1) =~= tail);
        count_of_flush(lit, one);
    } else {
        groups_are_numbered(src, i + 1, lit.push(src[i]), group);
    }
}

proof fn count_is_natural(items: Seq<Item>)
    ensures
        0 <= group_count_of(items) <= items.len(),
    decreases items.len(),
{
    if items.len() > 0 {
        count_is_natural(items.skip(1));
    }
}

proof fn count_of_flush(lit: Seq<char>, tail: Seq<Item>)
    ensures
        group_count_of(as_items(flush(lit)) + tail) == group_count_of(tail),
{
    let all = as_items(flush(lit)) + tail;
    if lit.len() == 0 {
        assert(all =~= tail);
    } else {
        assert(all.skip(1) =~= tail);
    }
}

/// The program of a pattern finds its captures.
proof fn program_is_walk(source: Seq<char>, s: Seq<u8>)
    ensures
        ({
            let items = items_of(source);
            let caps = blank(group_count_of(items));
            vm(program_of(source), 0, s, 0, caps) == walk(None, items, s, 0, caps)
        }),
{
    let items = items_of(source);
    groups_are_numbered(source, 0, Seq::empty(), 0);
    count_is_natural(items);
    let prog = program_of(source);
    assert(prog.skip(0) =~= prog);
    code_is_walk(prog, 0, items, s, 0, blank(group_count_of(items)));
}

// -------------------------------------------- a success does not need captures

proof fn success_ignores_captures(
    prog: Seq<Instr>,
    pc: int,
    s: Seq<u8>,
    pos: int,
    a: Spans,
    b: Spans,
)
    requires
        a.len() == b.len(),
    ensures
        vm(prog, pc, s, pos, a) is Some == vm(prog, pc, s, pos, b) is Some,
    decreases prog.len() - pc, 0int,
{
    if 0 <= pc < prog.len() {
        match prog[pc] {
            Instr::Match => {},
            Instr::Step(x) => {
                ends_ignore_captures(prog, pc + 1, s, ends(x, s, pos), 0, a, b);
            },
            Instr::Split(targets) => {
                split_ignores_captures(prog, pc, s, pos, targets, 0, a, b);
            },
            Instr::Jmp(t) => {
                if pc < t < prog.len() {
                    success_ignores_captures(prog, t, s, pos, a, b);
                }
            },
            Instr::CapStart(i) => {
                if 0 <= i < a.len() {
                    success_ignores_captures(
                        prog,
                        pc + 1,
                        s,
                        pos,
                        opened(a, i, pos),
                        opened(b, i, pos),
                    );
                }
            },
            Instr::CapEnd(i) => {
                if 0 <= i < a.len() {
                    success_ignores_captures(
                        prog,
                        pc + 1,
                        s,
                        pos,
                        closed_at(a, i, pos),
                        closed_at(b, i, pos),
                    );
                }
            },
        }
    }
}

proof fn ends_ignore_captures(
    prog: Seq<Instr>,
    pc: int,
    s: Seq<u8>,
    at: Seq<int>,
    k: int,
    a: Spans,
    b: Spans,
)
    requires
        a.len() == b.len(),
    ensures
        vm_ends(prog, pc, s, at, k, a) is Some == vm_ends(prog, pc, s, at, k, b) is Some,
    decreases prog.len() - pc, 1 + at.len() - k,
{
    if 0 <= k < at.len() {
        success_ignores_captures(prog, pc, s, at[k], a, b);
        ends_ignore_captures(prog, pc, s, at, k + 1, a, b);
    }
}

proof fn split_ignores_captures(
    prog: Seq<Instr>,
    pc: int,
    s: Seq<u8>,
    pos: int,
    targets: Seq<int>,
    k: int,
    a: Spans,
    b: Spans,
)
    requires
        a.len() == b.len(),
    ensures
        vm_split(prog, pc, s, pos, targets, k, a) is Some == vm_split(
            prog,
            pc,
            s,
            pos,
            targets,
            k,
            b,
        ) is Some,
    decreases prog.len() - pc - 1, 1 + targets.len() - k,
{
    if 0 <= k < targets.len() && pc < prog.len() {
        split_ignores_captures(prog, pc, s, pos, targets, k + 1, a, b);
        if pc < targets[k] < prog.len() {
            success_ignores_captures(prog, targets[k], s, pos, a, b);
        }
    }
}

// ------------------------------------------------- the walk decides the language

proof fn segment_end_facts(s: Seq<u8>, pos: int)
    requires
        0 <= pos <= s.len(),
    ensures
        pos <= segment_end(s, pos) <= s.len(),
        no_dot(s, pos, segment_end(s, pos)),
        segment_end(s, pos) == s.len() || s[segment_end(s, pos)] == dot(),
    decreases s.len() - pos,
{
    if pos < s.len() && s[pos] != dot() {
        segment_end_facts(s, pos + 1);
    }
}

/// `ends` lists exactly the places where the element can end.
pub(crate) proof fn ends_are_spans(a: Atom, s: Seq<u8>, pos: int)
    requires
        0 <= pos <= s.len(),
    ensures
        forall|j: int| #[trigger] atom_spans(a, s, pos, j) ==> ends(a, s, pos).contains(j),
        forall|k: int|
            0 <= k < ends(a, s, pos).len() ==> atom_spans(a, s, pos, #[trigger] ends(a, s, pos)[k]),
{
    segment_end_facts(s, pos);
    let at = ends(a, s, pos);
    let end = segment_end(s, pos);
    assert forall|j: int| #[trigger] atom_spans(a, s, pos, j) implies at.contains(j) by {
        match a {
            Atom::Lit(l) => {
                assert(j == pos + l.len());
                assert(at[0] == j);
            },
            Atom::Star => {
                assert(at[s.len() - j] == j);
            },
            Atom::PartialSeg => {
                if j > end {
                    assert(s[end] == dot());
                }
                assert(at[j - pos - 1] == j);
            },
            Atom::WholeSeg => {
                if j > end {
                    assert(s[end] == dot());
                }
                if j < end {
                    assert(s[j] != dot());
                }
                assert(at[0] == j);
            },
        }
    }
}

/// What is left of the pattern can stand for the rest of the key.
pub open spec fn rest_spans(
    open: Option<(int, Seq<Atom>)>,
    items: Seq<Item>,
    s: Seq<u8>,
    pos: int,
) -> bool {
    match open {
        None => items_span(items, s, pos),
        Some((_, atoms)) => atoms_then_items(atoms, items, s, pos),
    }
}

/// The elements and then the items can stand for the rest of the key.
pub open spec fn atoms_then_items(
    atoms: Seq<Atom>,
    items: Seq<Item>,
    s: Seq<u8>,
    pos: int,
) -> bool {
    exists|m: int| #[trigger] atoms_span(atoms, s, pos, m) && items_span(items, s, m)
}

proof fn alternative_spans(
    group: int,
    atoms: Seq<Atom>,
    items: Seq<Item>,
    s: Seq<u8>,
    pos: int,
    m: int,
)
    requires
        atoms_span(atoms, s, pos, m),
        items_span(items, s, m),
    ensures
        rest_spans(Some((group, atoms)), items, s, pos),
{
}

proof fn walk_decides(
    open: Option<(int, Seq<Atom>)>,
    items: Seq<Item>,
    s: Seq<u8>,
    pos: int,
    caps: Spans,
)
    requires
        0 <= pos <= s.len(),
    ensures
        walk(open, items, s, pos, caps) is Some <==> rest_spans(open, items, s, pos),
    decreases
            2 * items.len(),
            (match open {
                Some((_, atoms)) => 1 + atoms.len(),
                None => 0,
            }),
            0int,
{
    match open {
        Some((group, atoms)) => {
            if atoms.len() == 0 {
                walk_decides(None, items, s, pos, closed_at(caps, group, pos));
                if items_span(items, s, pos) {
                    assert(atoms_span(atoms, s, pos, pos));
                }
            } else {
                let a = atoms[0];
                let left = Some((group, atoms.skip(1)));
                ends_are_spans(a, s, pos);
                walk_ends_decides(left, items, s, ends(a, s, pos), 0, caps);
                if rest_spans(open, items, s, pos) {
                    let m = choose|m: int|
                        #[trigger] atoms_span(atoms, s, pos, m) && items_span(items, s, m);
                    let p = choose|p: int|
                        #[trigger] atom_spans(a, s, pos, p) && atoms_span(atoms.skip(1), s, p, m);
                    assert(ends(a, s, pos).contains(p));
                    let k = choose|k: int|
                        0 <= k < ends(a, s, pos).len() && ends(a, s, pos)[k] == p;
                    assert(rest_spans(left, items, s, ends(a, s, pos)[k]));
                }
                if walk(open, items, s, pos, caps) is Some {
                    let k = choose|k: int|
                        0 <= k < ends(a, s, pos).len() && #[trigger] rest_spans(
                            left,
                            items,
                            s,
                            ends(a, s, pos)[k],
                        );
                    let p = ends(a, s, pos)[k];
                    assert(atom_spans(a, s, pos, p));
                    let m = choose|m: int|
                        #[trigger] atoms_span(atoms.skip(1), s, p, m) && items_span(items, s, m);
                    assert(atoms_span(atoms, s, pos, m));
                }
            }
        },
        None => {
            if items.len() > 0 {
                let rest = items.skip(1);
                match items[0] {
                    Item::One(a) => {
                        ends_are_spans(a, s, pos);
                        walk_ends_decides(None, rest, s, ends(a, s, pos), 0, caps);
                        if items_span(items, s, pos) {
                            let m = choose|m: int|
                                #[trigger] item_spans(items[0], s, pos, m) && items_span(
                                    rest,
                                    s,
                                    m,
                                );
                            assert(atom_spans(a, s, pos, m));
                            assert(ends(a, s, pos).contains(m));
                            let k = choose|k: int|
                                0 <= k < ends(a, s, pos).len() && ends(a, s, pos)[k] == m;
                            assert(rest_spans(None, rest, s, ends(a, s, pos)[k]));
                        }
                        if walk(open, items, s, pos, caps) is Some {
                            let k = choose|k: int|
                                0 <= k < ends(a, s, pos).len() && #[trigger] rest_spans(
                                    None,
                                    rest,
                                    s,
                                    ends(a, s, pos)[k],
                                );
                            let p = ends(a, s, pos)[k];
                            assert(item_spans(items[0], s, pos, p));
                        }
                    },
                    Item::Group(group, alts) => {
                        let inside = opened(caps, group, pos);
                        walk_alternatives_decides(group, alts, 0, rest, s, pos, inside);
                        if items_span(items, s, pos) {
                            let m = choose|m: int|
                                #[trigger] item_spans(items[0], s, pos, m) && items_span(
                                    rest,
                                    s,
                                    m,
                                );
                            let k = choose|k: int|
                                0 <= k < alts.len() && #[trigger] atoms_span(alts[k], s, pos, m);
                            assert(item_spans(items[0], s, pos, m));
                            alternative_spans(group, alts[k], rest, s, pos, m);
                        }
                        if walk(open, items, s, pos, caps) is Some {
                            let k = choose|k: int|
                                0 <= k < alts.len() && #[trigger] rest_spans(
                                    Some((group, alts[k])),
                                    rest,
                                    s,
                                    pos,
                                );
                            let m = choose|m: int|
                                #[trigger] atoms_span(alts[k], s, pos, m) && items_span(
                                    rest,
                                    s,
                                    m,
                                );
                            assert(item_spans(items[0], s, pos, m));
                        }
                    },
                }
            }
        },
    }
}

proof fn walk_ends_decides(
    open: Option<(int, Seq<Atom>)>,
    items: Seq<Item>,
    s: Seq<u8>,
    at: Seq<int>,
    k: int,
    caps: Spans,
)
    requires
        0 <= k <= at.len(),
        forall|i: int| 0 <= i < at.len() ==> 0 <= #[trigger] at[i] <= s.len(),
    ensures
        walk_ends(open, items, s, at, k, caps) is Some <==> exists|i: int|
            k <= i < at.len() && #[trigger] rest_spans(open, items, s, at[i]),
    decreases
            2 * items.len(),
            (match open {
                Some((_, atoms)) => 1 + atoms.len(),
                None => 0,
            }),
            1 + at.len() - k,
{
    if k < at.len() {
        walk_decides(open, items, s, at[k], caps);
        walk_ends_decides(open, items, s, at, k + 1, caps);
        if walk(open, items, s, at[k], caps) is Some {
            assert(rest_spans(open, items, s, at[k]));
        }
    }
}

proof fn walk_alternatives_decides(
    group: int,
    alts: Seq<Seq<Atom>>,
    k: int,
    items: Seq<Item>,
    s: Seq<u8>,
    pos: int,
    caps: Spans,
)
    requires
        0 <= k <= alts.len(),
        0 <= pos <= s.len(),
    ensures
        walk_alternatives(group, alts, k, items, s, pos, caps) is Some <==> exists|i: int|
            k <= i < alts.len() && #[trigger] rest_spans(Some((group, alts[i])), items, s, pos),
    decreases 2 * items.len() + 1, 0int, 1 + alts.len() - k,
{
    if k < alts.len() {
        walk_decides(Some((group, alts[k])), items, s, pos, caps);
        walk_alternatives_decides(group, alts, k + 1, items, s, pos, caps);
        if walk(Some((group, alts[k])), items, s, pos, caps) is Some {
            assert(rest_spans(Some((group, alts[k])), items, s, pos));
        }
    }
}

/// A pattern has captures for exactly the keys that it matches.
pub proof fn captures_decide_the_match(source: Seq<char>, key: Seq<char>)
    ensures
        captures_of(source, key) is Some <==> accepts(source, key),
{
    let items = items_of(source);
    walk_decides(None, items, encode_utf8(key), 0, blank(group_count_of(items)));
}

/// The text holds none of the characters that mean something in a pattern.
pub open spec fn is_plain(source: Seq<char>) -> bool {
    forall|i: int| 0 <= i < source.len() ==> #[trigger] source[i] != '*' && source[i] != ':' && source[i] != '{'
}

proof fn plain_items(src: Seq<char>, i: int, lit: Seq<char>)
    requires
        is_plain(src),
        0 <= i <= src.len(),
        lit == src.take(i),
    ensures
        items_from(src, i, lit, 0) == as_items(flush(src)),
    decreases src.len() - i,
{
    if i < src.len() {
        assert(lit.push(src[i]) =~= src.take(i + 1));
        plain_items(src, i + 1, lit.push(src[i]));
    } else {
        assert(src.take(i) =~= src);
    }
}

/// A pattern without special characters matches its own text and nothing
/// else.
pub proof fn a_plain_pattern_matches_only_itself(source: Seq<char>, key: Seq<char>)
    requires
        is_plain(source),
    ensures
        accepts(source, key) <==> key == source,
{
    let s = encode_utf8(key);
    let l = encode_utf8(source);
    encode_utf8_decode_utf8(key);
    encode_utf8_decode_utf8(source);
    assert(source.take(0) =~= Seq::empty());
    plain_items(source, 0, Seq::empty());
    let items = items_of(source);
    if source.len() == 0 {
        assert(items =~= Seq::empty());
        assert(s.len() == 0 ==> s =~= l);
    } else {
        assert(items =~= seq![Item::One(Atom::Lit(l))]);
        assert(items.skip(1) =~= Seq::empty());
        if key == source {
            assert(s.subrange(0, s.len() as int) =~= l);
            assert(item_spans(items[0], s, 0, s.len() as int));
            assert(items_span(items.skip(1), s, s.len() as int));
        }
        if items_span(items, s, 0) {
            let m = choose|m: int|
                #[trigger] item_spans(items[0], s, 0, m) && items_span(items.skip(1), s, m);
            assert(s.subrange(0, m) =~= s);
        }
    }
}

// ------------------------------------------------------------------- compiling

enum AtomTok {
    Lit(String),
    Star,
    PartialSeg,
    WholeSeg,
}

enum Tok {
    One(AtomTok),
    Group(usize, Vec<Vec<AtomTok>>),
}

impl AtomTok {
    spec fn model(self) -> Atom {
        match self {
            AtomTok::Lit(l) => Atom::Lit(encode_utf8(l@)),
            AtomTok::Star => Atom::Star,
            AtomTok::PartialSeg => Atom::PartialSeg,
            AtomTok::WholeSeg => Atom::WholeSeg,
        }
    }
}

spec fn atoms_model(v: Seq<AtomTok>) -> Seq<Atom> {
    Seq::new(v.len(), |i: int| v[i].model())
}

spec fn alts_model(v: Seq<Vec<AtomTok>>) -> Seq<Seq<Atom>> {
    Seq::new(v.len(), |i: int| atoms_model(v[i]@))
}

impl Tok {
    spec fn model(self) -> Item {
        match self {
            Tok::One(a) => Item::One(a.model()),
            Tok::Group(g, alts) => Item::Group(g as int, alts_model(alts@)),
        }
    }
}

spec fn toks_model(v: Seq<Tok>) -> Seq<Item> {
    Seq::new(v.len(), |i: int| v[i].model())
}

/// The elements of one alternative. A `{` in it is an ordinary character,
/// because no `}` can follow.
fn tokenize_alternative(src: &str) -> (out: Vec<AtomTok>)
    ensures
        atoms_model(out@) == atoms_from(src@, 0, Seq::empty()),
{
    let b = chars_of(src);
    let mut out: Vec<AtomTok> = Vec::new();
    let mut lit: Vec<char> = Vec::new();
    let mut i: usize = 0;
    while i < b.len()
        invariant
            b@ == src@,
            i <= b.len(),
            atoms_model(out@) + atoms_from(b@, i as int, lit@) == atoms_from(
                src@,
                0,
                Seq::empty(),
            ),
        decreases b.len() - i,
    {
        let ghost before = atoms_model(out@);
        let ghost pending = flush(lit@);
        if b[i] == '*' || b[i] == ':' {
            push_literal(&mut out, &lit);
            lit = Vec::new();
            let ghost mid = atoms_model(out@);
            if b[i] == ':' {
                out.push(AtomTok::WholeSeg);
                i = i + 1;
            } else if i + 1 < b.len() && b[i + 1] == ':' {
                out.push(AtomTok::PartialSeg);
                i = i + 2;
            } else {
                out.push(AtomTok::Star);
                i = i + 1;
            }
            proof {
                let tail = atoms_from(b@, i as int, Seq::empty());
                let a = out@.last().model();
                assert(atoms_model(out@) =~= mid.push(a));
                assert(atoms_model(out@) + tail =~= before + (pending + (seq![a] + tail)));
            }
        } else {
            lit.push(b[i]);
            i = i + 1;
        }
    }
    push_literal(&mut out, &lit);
    out
}

fn push_literal(out: &mut Vec<AtomTok>, lit: &Vec<char>)
    ensures
        atoms_model(final(out)@) == atoms_model(old(out)@) + flush(lit@),
{
    if lit.len() > 0 {
        out.push(AtomTok::Lit(text_between(lit, 0, lit.len())));
        assert(lit@.subrange(0, lit.len() as int) =~= lit@);
    }
    assert(atoms_model(out@) =~= atoms_model(old(out)@) + flush(lit@));
}

fn push_literal_item(out: &mut Vec<Tok>, lit: &Vec<char>)
    ensures
        toks_model(final(out)@) == toks_model(old(out)@) + as_items(flush(lit@)),
        final(out).len() <= old(out).len() + 1,
{
    if lit.len() > 0 {
        out.push(Tok::One(AtomTok::Lit(text_between(lit, 0, lit.len()))));
        assert(lit@.subrange(0, lit.len() as int) =~= lit@);
    }
    assert(toks_model(out@) =~= toks_model(old(out)@) + as_items(flush(lit@)));
}

fn tokenize_alternatives(body: &str) -> (alts: Vec<Vec<AtomTok>>)
    ensures
        alts_model(alts@) == alternatives_of(body@),
{
    let parts = split(&trim(body), ',');
    let mut alts: Vec<Vec<AtomTok>> = Vec::new();
    let mut k: usize = 0;
    while k < parts.len()
        invariant
            k <= parts.len(),
            texts(parts@) == split_of(trim_of(body@), ','),
            alts_model(alts@) == alternatives_of(body@).take(k as int),
        decreases parts.len() - k,
    {
        let alt = tokenize_alternative(&trim(&parts[k]));
        let ghost before = alts_model(alts@);
        alts.push(alt);
        proof {
            assert(texts(parts@)[k as int] == parts@[k as int]@);
            assert(alts_model(alts@) =~= before.push(atoms_model(alt@)));
            assert(alternatives_of(body@).take(k + 1) =~= before.push(
                alternatives_of(body@)[k as int],
            ));
        }
        k = k + 1;
    }
    assert(alternatives_of(body@).take(k as int) =~= alternatives_of(body@)) by {
        assert(texts(parts@).len() == parts.len());
    }
    alts
}

/// Scans left to right, checking `*:` before `*` before `:`. Counts the groups
/// on the way.
fn tokenize(src: &str) -> (r: (Vec<Tok>, usize))
    ensures
        toks_model(r.0@) == items_of(src@),
        r.1 == group_count_of(items_of(src@)),
{
    let b = chars_of(src);
    let mut out: Vec<Tok> = Vec::new();
    let mut lit: Vec<char> = Vec::new();
    let mut groups: usize = 0;
    let mut i: usize = 0;
    while i < b.len()
        invariant
            b@ == src@,
            groups <= i <= b.len(),
            toks_model(out@) + items_from(b@, i as int, lit@, groups as int) == items_of(src@),
            groups + group_count_of(items_from(b@, i as int, lit@, groups as int))
                == group_count_of(items_of(src@)),
        decreases b.len() - i,
    {
        let ghost before = toks_model(out@);
        let ghost pending = as_items(flush(lit@));
        let ghost g0 = groups as int;
        let c = b[i];
        let close: usize = if c == '{' {
            position_from(&b, '}', i + 1)
        } else {
            b.len()
        };
        if close < b.len() || c == '*' || c == ':' {
            let ghost was = lit@;
            push_literal_item(&mut out, &lit);
            lit = Vec::new();
            let ghost mid = toks_model(out@);
            if c == '{' {
                let alts = tokenize_alternatives(&text_between(&b, i + 1, close));
                out.push(Tok::Group(groups, alts));
                groups = groups + 1;
                i = close + 1;
            } else if c == ':' {
                out.push(Tok::One(AtomTok::WholeSeg));
                i = i + 1;
            } else if i + 1 < b.len() && b[i + 1] == ':' {
                out.push(Tok::One(AtomTok::PartialSeg));
                i = i + 2;
            } else {
                out.push(Tok::One(AtomTok::Star));
                i = i + 1;
            }
            proof {
                let tail = items_from(b@, i as int, Seq::empty(), groups as int);
                let item = out@.last().model();
                assert(toks_model(out@) =~= mid.push(item));
                assert(toks_model(out@) + tail =~= before + (pending + (seq![item] + tail)));
                count_of_flush(was, seq![item] + tail);
                assert((seq![item] + tail).skip(1) =~= tail);
            }
        } else {
            lit.push(c);
            i = i + 1;
        }
    }
    proof {
        count_of_flush(lit@, Seq::empty());
        assert(as_items(flush(lit@)) + Seq::<Item>::empty() =~= as_items(flush(lit@)));
    }
    push_literal_item(&mut out, &lit);
    (out, groups)
}

/// One instruction of the compiled pattern program.
enum Inst {
    Lit(Vec<u8>),
    Star,
    PartialSeg,
    WholeSeg,
    Split(Vec<usize>),
    Jmp(usize),
    CapStart(usize),
    CapEnd(usize),
    Match,
}

spec fn targets_model(v: Seq<usize>) -> Seq<int> {
    Seq::new(v.len(), |i: int| v[i] as int)
}

impl Inst {
    spec fn model(self) -> Instr {
        match self {
            Inst::Lit(l) => Instr::Step(Atom::Lit(l@)),
            Inst::Star => Instr::Step(Atom::Star),
            Inst::PartialSeg => Instr::Step(Atom::PartialSeg),
            Inst::WholeSeg => Instr::Step(Atom::WholeSeg),
            Inst::Split(t) => Instr::Split(targets_model(t@)),
            Inst::Jmp(t) => Instr::Jmp(t as int),
            Inst::CapStart(i) => Instr::CapStart(i as int),
            Inst::CapEnd(i) => Instr::CapEnd(i as int),
            Inst::Match => Instr::Match,
        }
    }
}

spec fn prog_model(v: Seq<Inst>) -> Seq<Instr> {
    Seq::new(v.len(), |i: int| v[i].model())
}

fn emit_atom(atom: &AtomTok, prog: &mut Vec<Inst>)
    ensures
        prog_model(final(prog)@) == prog_model(old(prog)@).push(Instr::Step(atom.model())),
{
    match atom {
        AtomTok::Lit(l) => {
            prog.push(Inst::Lit(l.as_str().as_bytes_vec()));
        },
        AtomTok::Star => {
            prog.push(Inst::Star);
        },
        AtomTok::PartialSeg => {
            prog.push(Inst::PartialSeg);
        },
        AtomTok::WholeSeg => {
            prog.push(Inst::WholeSeg);
        },
    }
    assert(prog_model(prog@) =~= prog_model(old(prog)@).push(Instr::Step(atom.model())));
}

fn emit_alternative(atoms: &Vec<AtomTok>, prog: &mut Vec<Inst>)
    ensures
        prog_model(final(prog)@) == prog_model(old(prog)@) + atoms_code(
            atoms_model(atoms@),
        ).push(Instr::Jmp(0)),
{
    let mut k: usize = 0;
    while k < atoms.len()
        invariant
            k <= atoms.len(),
            prog_model(prog@) == prog_model(old(prog)@) + atoms_code(
                atoms_model(atoms@),
            ).take(k as int),
        decreases atoms.len() - k,
    {
        let ghost all = atoms_code(atoms_model(atoms@));
        emit_atom(&atoms[k], prog);
        assert(all.take(k + 1) =~= all.take(k as int).push(all[k as int]));
        k = k + 1;
    }
    let ghost mid = prog_model(prog@);
    prog.push(Inst::Jmp(0));
    proof {
        let all = atoms_code(atoms_model(atoms@));
        assert(all.take(k as int) =~= all);
        assert(prog_model(prog@) =~= mid.push(Instr::Jmp(0)));
        assert(prog_model(prog@) =~= prog_model(old(prog)@) + all.push(Instr::Jmp(0)));
    }
}

/// Only the jumps of `alts_code` depend on its second argument.
proof fn alts_code_jumps(alts: Seq<Seq<Atom>>, e1: int, e2: int)
    ensures
        alts_code(alts, e1).len() == alts_code(alts, e2).len(),
        forall|i: int|
            0 <= i < alts_code(alts, e1).len() ==> #[trigger] alts_code(alts, e2)[i] == if alts_code(
                alts,
                e1,
            )[i] is Jmp {
                Instr::Jmp(e2)
            } else {
                alts_code(alts, e1)[i]
            },
    decreases alts.len(),
{
    if alts.len() > 0 {
        alts_code_jumps(alts.drop_last(), e1, e2);
    }
}

fn emit_group(group: usize, alts: &Vec<Vec<AtomTok>>, prog: &mut Vec<Inst>)
    ensures
        prog_model(final(prog)@) == prog_model(old(prog)@) + item_code(
            Item::Group(group as int, alts_model(alts@)),
            old(prog).len() as int,
        ),
{
    let ghost p0 = prog_model(prog@);
    let ghost base = p0.len() as int;
    let ghost model = alts_model(alts@);
    prog.push(Inst::CapStart(group));
    let split_at = prog.len();
    prog.push(Inst::Split(Vec::new()));
    let mut starts: Vec<usize> = Vec::new();
    let ghost head = prog_model(prog@);
    let mut k: usize = 0;
    assert(alts_code(model.take(0), 0) =~= Seq::empty());
    assert(head + Seq::<Instr>::empty() =~= head);
    while k < alts.len()
        invariant
            k <= alts.len(),
            model == alts_model(alts@),
            head.len() == base + 2,
            prog_model(prog@) == head + alts_code(model.take(k as int), 0),
            targets_model(starts@) == alt_starts(model, base + 2).take(k as int),
        decreases alts.len() - k,
    {
        let ghost at = prog_model(prog@).len();
        let ghost earlier = targets_model(starts@);
        starts.push(prog.len());
        proof {
            assert(at == prog.len());
            assert(targets_model(starts@) =~= earlier.push(at as int));
            let all = alt_starts(model, base + 2);
            assert(all.take(k + 1) =~= all.take(k as int).push(all[k as int]));
        }
        emit_alternative(&alts[k], prog);
        proof {
            let part = model.take(k + 1);
            assert(part.drop_last() =~= model.take(k as int));
            assert(part.last() == atoms_model(alts@[k as int]@));
            assert(alts_code(part, 0) == alts_code(model.take(k as int), 0) + atoms_code(
                part.last(),
            ).push(Instr::Jmp(0)));
        }
        k = k + 1;
    }
    let end = prog.len();
    proof {
        assert(model.take(k as int) =~= model);
        assert(alt_starts(model, base + 2).take(k as int) =~= alt_starts(model, base + 2));
        alts_code_jumps(model, 0, end as int);
    }
    let ghost done = head.update(base + 1, Instr::Split(alt_starts(model, base + 2)));
    let ghost built = prog_model(prog@);
    assert(built.len() == prog.len());
    prog.set(split_at, Inst::Split(starts));
    assert(prog_model(prog@) =~= built.update(split_at as int, done[base + 1]));
    assert(built =~= head + alts_code(model, 0));
    assert(prog_model(prog@) =~= done + alts_code(model, 0));
    let mut q: usize = split_at + 1;
    proof {
        let now = prog_model(prog@);
        assert forall|i: int| 0 <= i < base + 2 implies #[trigger] prog@[i].model() == done[i] by {
            assert(now[i] == prog@[i].model());
        }
        assert forall|i: int| base + 2 <= i < end implies #[trigger] prog@[i].model() == alts_code(
            model,
            0,
        )[i - base - 2] by {
            assert(now[i] == prog@[i].model());
        }
    }
    while q < end
        invariant
            base + 2 <= q <= end,
            end == prog.len(),
            done.len() == base + 2,
            end == base + 2 + alts_code(model, 0).len(),
            alts_code(model, end as int).len() == alts_code(model, 0).len(),
            forall|i: int| 0 <= i < base + 2 ==> #[trigger] prog@[i].model() == done[i],
            forall|i: int|
                base + 2 <= i < q ==> #[trigger] prog@[i].model() == alts_code(model, end as int)[i - base
                    - 2],
            forall|i: int|
                q <= i < end ==> #[trigger] prog@[i].model() == alts_code(model, 0)[i - base - 2],
            forall|i: int|
                0 <= i < alts_code(model, 0).len() ==> #[trigger] alts_code(model, end as int)[i]
                    == if alts_code(model, 0)[i] is Jmp {
                    Instr::Jmp(end as int)
                } else {
                    alts_code(model, 0)[i]
                },
        decreases end - q,
    {
        let ghost here = prog@[q as int].model();
        assert(here == alts_code(model, 0)[q - base - 2]);
        if matches!(prog[q], Inst::Jmp(_)) {
            prog.set(q, Inst::Jmp(end));
        }
        assert(prog@[q as int].model() == alts_code(model, end as int)[q - base - 2]);
        q = q + 1;
    }
    prog.push(Inst::CapEnd(group));
    assert(prog_model(prog@) =~= p0 + item_code(Item::Group(group as int, model), base));
}

fn emit(toks: &Vec<Tok>, prog: &mut Vec<Inst>)
    ensures
        prog_model(final(prog)@) == prog_model(old(prog)@) + code(
            toks_model(toks@),
            old(prog).len() as int,
        ),
{
    let ghost items = toks_model(toks@);
    let ghost p0 = prog_model(prog@);
    let mut k: usize = 0;
    assert(items.skip(0) =~= items);
    while k < toks.len()
        invariant
            k <= toks.len(),
            items == toks_model(toks@),
            prog_model(prog@) + code(items.skip(k as int), prog.len() as int) == p0 + code(
                items,
                p0.len() as int,
            ),
        decreases toks.len() - k,
    {
        let ghost before = prog_model(prog@);
        match &toks[k] {
            Tok::One(atom) => {
                emit_atom(atom, prog);
            },
            Tok::Group(group, alts) => {
                emit_group(*group, alts, prog);
            },
        }
        proof {
            let left = items.skip(k as int);
            let first = item_code(left[0], before.len() as int);
            assert(left.skip(1) =~= items.skip(k + 1));
            assert(prog_model(prog@) =~= before + first);
            let tail = code(items.skip(k + 1), (before.len() + first.len()) as int);
            assert(before + first + tail =~= before + (first + tail));
        }
        k = k + 1;
    }
    assert(items.skip(k as int) =~= Seq::empty());
}

// --------------------------------------------------------------------- running

/// Dead-state memo for the backtracking search.
///
/// The language has no backreferences, so whether a state matches the rest of
/// the key does not depend on the captures held at the time: a `(pc, pos)`
/// that failed once always fails. Recording those failures bounds the work at
/// one visit per `(pc, pos)` and leaves the order of the search as it is.
///
/// The table is allocated only after `WARMUP` states have failed: an ordinary
/// pattern finishes in a handful of steps.
struct Memo {
    /// One more than the length of the key, because `pos` may sit at its end.
    stride: usize,
    /// The size of the table, where it can be addressed.
    cells: Option<usize>,
    failed: Vec<bool>,
    failures: usize,
}

/// Failed states tolerated before the table is worth its allocation.
const WARMUP: usize = 64;

proof fn cell_in_table(pc: int, pos: int, stride: int, rows: int)
    requires
        0 <= pc < rows,
        0 <= pos < stride,
    ensures
        0 <= pc * stride + pos < rows * stride,
        0 <= pc * stride,
{
    assert(0 <= pc * stride) by (nonlinear_arith)
        requires
            0 <= pc,
            0 < stride,
    ;
    assert(pc * stride + stride <= rows * stride) by (nonlinear_arith)
        requires
            pc + 1 <= rows,
            0 < stride,
    ;
}

proof fn cells_differ(pc: int, pos: int, pc2: int, pos2: int, stride: int)
    requires
        0 <= pos < stride,
        0 <= pos2 < stride,
        pc * stride + pos == pc2 * stride + pos2,
    ensures
        pc == pc2 && pos == pos2,
{
    assert(pc == pc2) by (nonlinear_arith)
        requires
            0 <= pos < stride,
            0 <= pos2 < stride,
            pc * stride + pos == pc2 * stride + pos2,
    ;
}

impl Memo {
    /// The table has one cell per state, and a marked state fails.
    spec fn sound(&self, prog: Seq<Instr>, s: Seq<u8>, groups: int) -> bool {
        &&& self.cells matches Some(n) ==> self.stride == s.len() + 1 && n == prog.len()
            * self.stride
        &&& self.failed.len() > 0 ==> self.cells == Some(self.failed.len())
        &&& forall|pc: int, pos: int|
            0 <= pc < prog.len() && 0 <= pos <= s.len() && self.failed.len() > 0
                && self.failed@[#[trigger] cell(pc, pos, self.stride as int)] ==> vm(
                prog,
                pc,
                s,
                pos,
                blank(groups),
            ) is None
    }

    /// The state is marked as one that fails.
    spec fn marks(&self, pc: int, pos: int) -> bool {
        self.failed.len() > 0 && self.failed@[cell(pc, pos, self.stride as int)]
    }

    /// The next failure goes into the table: there is one, or enough failures
    /// came before and a table has room in memory.
    spec fn records(&self) -> bool {
        self.failed.len() > 0 || self.failures >= WARMUP && self.cells is Some
    }

    fn new(prog_len: usize, key_len: usize) -> (memo: Memo)
        ensures
            memo.failed.len() == 0,
            memo.failures == 0,
            memo.cells == if prog_len * (key_len + 1) <= usize::MAX && key_len < usize::MAX {
                Some((prog_len * (key_len + 1)) as usize)
            } else {
                None
            },
            forall|prog: Seq<Instr>, s: Seq<u8>, groups: int|
                prog.len() == prog_len && s.len() == key_len ==> #[trigger] memo.sound(
                    prog,
                    s,
                    groups,
                ),
    {
        let (stride, cells): (usize, Option<usize>) = match key_len.checked_add(1) {
            Some(stride) => (stride, prog_len.checked_mul(stride)),
            None => (0, None),
        };
        Memo { stride, cells, failed: Vec::new(), failures: 0 }
    }

    fn is_dead(
        &self,
        pc: usize,
        pos: usize,
        Ghost(prog): Ghost<Seq<Instr>>,
        Ghost(s): Ghost<Seq<u8>>,
        Ghost(groups): Ghost<int>,
    ) -> (dead: bool)
        requires
            self.sound(prog, s, groups),
            pc < prog.len(),
            pos <= s.len(),
        ensures
            dead == self.marks(pc as int, pos as int),
            dead ==> vm(prog, pc as int, s, pos as int, blank(groups)) is None,
    {
        if self.failed.len() == 0 {
            return false;
        }
        proof {
            cell_in_table(pc as int, pos as int, self.stride as int, prog.len() as int);
        }
        let at: usize = pc * self.stride + pos;
        assert(at == cell(pc as int, pos as int, self.stride as int));
        self.failed[at]
    }

    fn mark_dead(
        &mut self,
        pc: usize,
        pos: usize,
        Ghost(prog): Ghost<Seq<Instr>>,
        Ghost(s): Ghost<Seq<u8>>,
        Ghost(groups): Ghost<int>,
    )
        requires
            old(self).sound(prog, s, groups),
            pc < prog.len(),
            pos <= s.len(),
            vm(prog, pc as int, s, pos as int, blank(groups)) is None,
        ensures
            final(self).sound(prog, s, groups),
            final(self).stride == old(self).stride,
            final(self).cells == old(self).cells,
            final(self).failures == if old(self).failed.len() == 0 && old(self).failures < WARMUP {
                old(self).failures + 1
            } else {
                old(self).failures as int
            },
            final(self).failed.len() > 0 <==> old(self).records(),
            forall|a: int, b: int|
                0 <= a < prog.len() && 0 <= b <= s.len() ==> (#[trigger] final(self).marks(a, b)
                    <==> old(self).records() && (old(self).marks(a, b) || a == pc && b == pos)),
    {
        if self.failed.len() == 0 {
            if self.failures < WARMUP {
                self.failures = self.failures + 1;
                return;
            }
            match self.cells {
                Some(n) => {
                    self.failed = vec![false; n];
                    proof {
                        assert forall|a: int, b: int|
                            0 <= a < prog.len() && 0 <= b <= s.len() implies !self.failed@[
                        #[trigger] cell(a, b, self.stride as int)] by {
                            cell_in_table(a, b, self.stride as int, prog.len() as int);
                        }
                    }
                },
                None => {
                    return;
                },
            }
        }
        proof {
            cell_in_table(pc as int, pos as int, self.stride as int, prog.len() as int);
        }
        let at: usize = pc * self.stride + pos;
        let ghost before = self.failed@;
        self.failed.set(at, true);
        proof {
            assert forall|a: int, b: int| 0 <= a < prog.len() && 0 <= b <= s.len() implies (
            #[trigger] self.marks(a, b) <==> old(self).marks(a, b) || a == pc && b == pos) by {
                cell_in_table(a, b, self.stride as int, prog.len() as int);
                if cell(a, b, self.stride as int) == at {
                    cells_differ(a, b, pc as int, pos as int, self.stride as int);
                }
            }
            assert forall|a: int, b: int|
                0 <= a < prog.len() && 0 <= b <= s.len() && self.failed@[#[trigger] cell(
                    a,
                    b,
                    self.stride as int,
                )] implies vm(prog, a, s, b, blank(groups)) is None by {
                cell_in_table(a, b, self.stride as int, prog.len() as int);
                if cell(a, b, self.stride as int) == at {
                    cells_differ(a, b, pc as int, pos as int, self.stride as int);
                } else {
                    assert(before[cell(a, b, self.stride as int)]);
                }
            }
        }
    }
}

spec fn cell(pc: int, pos: int, stride: int) -> int {
    pc * stride + pos
}

/// A half-open byte range inside the key, for one `{...}` capture group.
pub type Captures = Vec<Option<(usize, usize)>>;

/// The spans that captures hold.
pub open spec fn spans_of(caps: Seq<Option<(usize, usize)>>) -> Spans {
    Seq::new(
        caps.len(),
        |i: int|
            match caps[i] {
                Some((a, b)) => Some((a as int, b as int)),
                None => None,
            },
    )
}

/// A compiled pattern together with the text it was compiled from.
pub struct Program {
    prog: Vec<Inst>,
    /// Literal bytes that the key must start with, to reject most keys early.
    prefix: Vec<u8>,
    groups: usize,
    text: Ghost<Seq<char>>,
}

fn bytes_at(s: &[u8], l: &Vec<u8>, pos: usize) -> (b: bool)
    requires
        pos <= s.len(),
    ensures
        b == (pos + l.len() <= s.len() && s@.subrange(pos as int, pos + l.len()) == l@),
{
    if s.len() - pos < l.len() {
        return false;
    }
    let mut k: usize = 0;
    while k < l.len()
        invariant
            k <= l.len(),
            pos + l.len() <= s.len(),
            forall|j: int| 0 <= j < k ==> s@[pos + j] == l@[j],
        decreases l.len() - k,
    {
        if s[pos + k] != l[k] {
            assert(s@.subrange(pos as int, pos + l.len())[k as int] != l@[k as int]);
            return false;
        }
        k = k + 1;
    }
    assert(s@.subrange(pos as int, pos + l.len()) =~= l@);
    true
}

fn end_of_segment(s: &[u8], pos: usize) -> (end: usize)
    requires
        pos <= s.len(),
    ensures
        end == segment_end(s@, pos as int),
        pos <= end <= s.len(),
{
    let mut end: usize = pos;
    while end < s.len() && s[end] != 46
        invariant
            pos <= end <= s.len(),
            segment_end(s@, pos as int) == segment_end(s@, end as int),
        decreases s.len() - end,
    {
        end = end + 1;
    }
    end
}

impl Program {
    #[verifier::type_invariant]
    spec fn wf(&self) -> bool {
        &&& prog_model(self.prog@) == program_of(self.text@)
        &&& self.groups == group_count_of(items_of(self.text@))
        &&& self.prefix.len() > 0 ==> prog_model(self.prog@)[0] == Instr::Step(
            Atom::Lit(self.prefix@),
        )
    }

    fn compile(source: &str) -> (p: Program)
        ensures
            p.text@ == source@,
            p.groups == group_count_of(items_of(source@)),
    {
        let (toks, groups) = tokenize(source);
        let mut prog: Vec<Inst> = Vec::new();
        emit(&toks, &mut prog);
        let ghost before = prog_model(prog@);
        prog.push(Inst::Match);
        proof {
            assert(prog_model(Seq::<Inst>::empty()) =~= Seq::empty());
            assert(before =~= code(items_of(source@), 0));
            assert(prog_model(prog@) =~= before.push(Instr::Match));
        }
        let mut prefix: Vec<u8> = Vec::new();
        if let Inst::Lit(l) = &prog[0] {
            let mut k: usize = 0;
            while k < l.len()
                invariant
                    k <= l.len(),
                    prefix@ == l@.take(k as int),
                decreases l.len() - k,
            {
                prefix.push(l[k]);
                assert(l@.take(k + 1) =~= l@.take(k as int).push(l@[k as int]));
                k = k + 1;
            }
            assert(l@.take(k as int) =~= l@);
            assert(prog_model(prog@)[0] == prog@[0].model());
        }
        Program { prog, prefix, groups, text: Ghost(source@) }
    }

    /// Runs one instruction, with the dead-state memo in front of it.
    fn run(&self, pc: usize, s: &[u8], pos: usize, caps: &mut Captures, memo: &mut Memo) -> (ok:
        bool)
        requires
            pos <= s.len(),
            old(caps).len() == self.groups,
            old(memo).sound(prog_model(self.prog@), s@, self.groups as int),
        ensures
            final(memo).sound(prog_model(self.prog@), s@, self.groups as int),
            match vm(prog_model(self.prog@), pc as int, s@, pos as int, spans_of(old(caps)@)) {
                Some(found) => ok && spans_of(final(caps)@) == found,
                None => !ok && final(caps)@ == old(caps)@,
            },
            final(caps).len() == self.groups,
        decreases self.prog.len() - pc, 0int,
    {
        let ghost model = prog_model(self.prog@);
        if pc >= self.prog.len() {
            return false;
        }
        proof {
            success_ignores_captures(
                model,
                pc as int,
                s@,
                pos as int,
                spans_of(caps@),
                blank(self.groups as int),
            );
        }
        if memo.is_dead(pc, pos, Ghost(model), Ghost(s@), Ghost(self.groups as int)) {
            return false;
        }
        if self.step(pc, s, pos, caps, memo) {
            return true;
        }
        memo.mark_dead(pc, pos, Ghost(model), Ghost(s@), Ghost(self.groups as int));
        false
    }

    fn step(&self, pc: usize, s: &[u8], pos: usize, caps: &mut Captures, memo: &mut Memo) -> (ok:
        bool)
        requires
            pc < self.prog.len(),
            pos <= s.len(),
            old(caps).len() == self.groups,
            old(memo).sound(prog_model(self.prog@), s@, self.groups as int),
        ensures
            final(memo).sound(prog_model(self.prog@), s@, self.groups as int),
            match vm(prog_model(self.prog@), pc as int, s@, pos as int, spans_of(old(caps)@)) {
                Some(found) => ok && spans_of(final(caps)@) == found,
                None => !ok && final(caps)@ == old(caps)@,
            },
            final(caps).len() == self.groups,
        decreases self.prog.len() - pc - 1, 1int,
    {
        let ghost model = prog_model(self.prog@);
        let ghost c0 = spans_of(caps@);
        assert(model[pc as int] == self.prog@[pc as int].model());
        assert(pc < self.prog.len() <= usize::MAX);
        match &self.prog[pc] {
            Inst::Match => pos == s.len(),
            Inst::Lit(l) => {
                let ghost at = ends(Atom::Lit(l@), s@, pos as int);
                assert(at.len() == 0 ==> vm_ends(model, pc + 1, s@, at, 0, c0) is None);
                assert(vm(model, pc as int, s@, pos as int, c0) == vm_ends(
                    model,
                    pc + 1,
                    s@,
                    at,
                    0,
                    c0,
                ));
                if bytes_at(s, l, pos) {
                    assert(at =~= seq![pos + l@.len()]);
                    assert(vm_ends(model, pc + 1, s@, at, 1, c0) is None);
                    assert(vm_ends(model, pc + 1, s@, at, 0, c0) == vm(
                        model,
                        pc + 1,
                        s@,
                        at[0],
                        c0,
                    ));
                    self.run(pc + 1, s, pos + l.len(), caps, memo)
                } else {
                    false
                }
            },
            // Greedy, so the longest run is tried first.
            Inst::Star => {
                let ghost at = ends(Atom::Star, s@, pos as int);
                let mut end: usize = s.len();
                loop
                    invariant
                        pc < self.prog.len(),
                        pos <= end <= s.len(),
                        model == prog_model(self.prog@),
                        at == ends(Atom::Star, s@, pos as int),
                        caps@ == old(caps)@,
                        caps.len() == self.groups,
                        c0 == spans_of(caps@),
                        memo.sound(model, s@, self.groups as int),
                        vm(model, pc as int, s@, pos as int, c0) == vm_ends(
                            model,
                            pc + 1,
                            s@,
                            at,
                            s.len() - end,
                            c0,
                        ),
                    decreases end,
                {
                    assert(at[s.len() - end] == end);
                    if self.run(pc + 1, s, end, caps, memo) {
                        return true;
                    }
                    if end == pos {
                        assert(vm_ends(model, pc + 1, s@, at, s.len() - end + 1, c0) is None);
                        return false;
                    }
                    end = end - 1;
                }
            },
            // Non-greedy, so the shortest run is tried first. At least one byte.
            Inst::PartialSeg => {
                let last = end_of_segment(s, pos);
                let ghost at = ends(Atom::PartialSeg, s@, pos as int);
                let mut end: usize = pos;
                while end < last
                    invariant
                        pc < self.prog.len(),
                        pos <= end <= last <= s.len(),
                        last == segment_end(s@, pos as int),
                        model == prog_model(self.prog@),
                        at == ends(Atom::PartialSeg, s@, pos as int),
                        caps@ == old(caps)@,
                        caps.len() == self.groups,
                        c0 == spans_of(caps@),
                        memo.sound(model, s@, self.groups as int),
                        vm(model, pc as int, s@, pos as int, c0) == vm_ends(
                            model,
                            pc + 1,
                            s@,
                            at,
                            end - pos,
                            c0,
                        ),
                    decreases last - end,
                {
                    assert(at[end - pos] == end + 1);
                    end = end + 1;
                    if self.run(pc + 1, s, end, caps, memo) {
                        return true;
                    }
                }
                false
            },
            // The boundaries leave exactly one candidate: the whole segment
            // that starts at `pos`.
            Inst::WholeSeg => {
                let ghost at = ends(Atom::WholeSeg, s@, pos as int);
                assert(at.len() == 0 ==> vm_ends(model, pc + 1, s@, at, 0, c0) is None);
                if pos != 0 && s[pos - 1] != 46 {
                    return false;
                }
                let end = end_of_segment(s, pos);
                if end == pos {
                    return false;
                }
                assert(at =~= seq![end as int]);
                assert(vm_ends(model, pc + 1, s@, at, 1, c0) is None);
                assert(vm_ends(model, pc + 1, s@, at, 0, c0) == vm(model, pc + 1, s@, at[0], c0));
                self.run(pc + 1, s, end, caps, memo)
            },
            Inst::Split(targets) => {
                let ghost to = targets_model(targets@);
                let mut k: usize = 0;
                while k < targets.len()
                    invariant
                        pc < self.prog.len(),
                        k <= targets.len(),
                        pos <= s.len(),
                        model == prog_model(self.prog@),
                        to == targets_model(targets@),
                        caps@ == old(caps)@,
                        caps.len() == self.groups,
                        c0 == spans_of(caps@),
                        memo.sound(model, s@, self.groups as int),
                        vm(model, pc as int, s@, pos as int, c0) == vm_split(
                            model,
                            pc as int,
                            s@,
                            pos as int,
                            to,
                            k as int,
                            c0,
                        ),
                    decreases targets.len() - k,
                {
                    let t = targets[k];
                    assert(to[k as int] == t);
                    if t > pc && t < self.prog.len() {
                        if self.run(t, s, pos, caps, memo) {
                            return true;
                        }
                    }
                    k = k + 1;
                }
                false
            },
            Inst::Jmp(t) => {
                if *t > pc && *t < self.prog.len() {
                    self.run(*t, s, pos, caps, memo)
                } else {
                    false
                }
            },
            // Save and restore so a failed branch leaves no stale capture.
            Inst::CapStart(i) => {
                if *i >= caps.len() {
                    return false;
                }
                let saved = caps[*i];
                caps.set(*i, Some((pos, pos)));
                assert(spans_of(caps@) =~= opened(c0, *i as int, pos as int));
                if self.run(pc + 1, s, pos, caps, memo) {
                    true
                } else {
                    caps.set(*i, saved);
                    assert(caps@ =~= old(caps)@);
                    false
                }
            },
            Inst::CapEnd(i) => {
                if *i >= caps.len() {
                    return false;
                }
                let saved = caps[*i];
                let start: usize = match saved {
                    Some((s0, _)) => s0,
                    None => pos,
                };
                caps.set(*i, Some((start, pos)));
                assert(c0[*i as int] == match saved {
                    Some((a, b)) => Some((a as int, b as int)),
                    None => None,
                });
                assert(spans_of(caps@) =~= closed_at(c0, *i as int, pos as int));
                if self.run(pc + 1, s, pos, caps, memo) {
                    true
                } else {
                    caps.set(*i, saved);
                    assert(caps@ =~= old(caps)@);
                    false
                }
            },
        }
    }

    fn captures(&self, key: &str) -> (r: Option<Captures>)
        ensures
            match r {
                Some(caps) => captures_of(self.text@, key@) == Some(spans_of(caps@)),
                None => captures_of(self.text@, key@) is None,
            },
    {
        proof {
            use_type_invariant(self);
            program_is_walk(self.text@, encode_utf8(key@));
        }
        let bytes = key.as_bytes();
        let ghost model = prog_model(self.prog@);
        if !bytes_at(bytes, &self.prefix, 0) {
            proof {
                let l = Atom::Lit(self.prefix@);
                let at = ends(l, bytes@, 0);
                assert(model[0] == Instr::Step(l)) by {
                    if self.prefix.len() == 0 {
                        assert(bytes@.subrange(0, 0) =~= self.prefix@);
                    }
                }
                assert(at =~= Seq::empty());
                assert(vm_ends(model, 1, bytes@, at, 0, blank(self.groups as int)) is None);
            }
            return None;
        }
        let mut caps: Captures = vec![None; self.groups];
        assert(spans_of(caps@) =~= blank(self.groups as int));
        let mut memo = Memo::new(self.prog.len(), bytes.len());
        if self.run(0, bytes, 0, &mut caps, &mut memo) {
            Some(caps)
        } else {
            None
        }
    }
}

impl View for Program {
    type V = Seq<char>;

    closed spec fn view(&self) -> Seq<char> {
        self.text@
    }
}

/// A single compiled key pattern. Its view is the text it was compiled from.
pub struct Pattern {
    pub program: Program,
    pub group_count: usize,
    pub source: String,
}

impl View for Pattern {
    type V = Seq<char>;

    open spec fn view(&self) -> Seq<char> {
        self.program@
    }
}

impl Pattern {
    /// Compiles a pattern. Every text is one.
    pub fn compile(source: &str) -> (pattern: Pattern)
        ensures
            pattern@ == source@,
            pattern.source@ == source@,
            pattern.group_count == group_count_of(items_of(source@)),
    {
        let program = Program::compile(source);
        let group_count = program.groups;
        Pattern { program, group_count, source: source.to_owned() }
    }

    /// Whether the pattern matches the whole key.
    pub fn is_match(&self, key: &str) -> (b: bool)
        ensures
            b == accepts(self@, key@),
    {
        proof {
            captures_decide_the_match(self@, key@);
        }
        self.captures(key).is_some()
    }

    /// Returns the `{...}` group captures when the pattern matches the whole key.
    pub fn captures(&self, key: &str) -> (r: Option<Captures>)
        ensures
            match r {
                Some(caps) => captures_of(self@, key@) == Some(spans_of(caps@)),
                None => captures_of(self@, key@) is None,
            },
            r is Some <==> accepts(self@, key@),
    {
        proof {
            captures_decide_the_match(self@, key@);
        }
        self.program.captures(key)
    }
}

/// A list of patterns. Matches when any member matches. Its view is the list
/// of their texts.
pub struct PatternSet {
    pats: Vec<Pattern>,
}

impl View for PatternSet {
    type V = Seq<Seq<char>>;

    closed spec fn view(&self) -> Seq<Seq<char>> {
        Seq::new(self.pats@.len(), |i: int| self.pats@[i]@)
    }
}

/// One of the patterns matches the key.
pub open spec fn any_accepts(sources: Seq<Seq<char>>, key: Seq<char>) -> bool {
    exists|i: int| 0 <= i < sources.len() && #[trigger] accepts(sources[i], key)
}

impl PatternSet {
    /// Every pattern carries the text that it was compiled from, and the number
    /// of its groups.
    #[verifier::type_invariant]
    spec fn wf(&self) -> bool {
        forall|i: int|
            0 <= i < self.pats.len() ==> (#[trigger] self.pats@[i]).source@ == self.pats@[i]@
                && self.pats@[i].group_count == group_count_of(items_of(self.pats@[i]@))
    }

    /// Compiles each source. An empty list matches nothing.
    pub fn new(sources: &[String]) -> (set: PatternSet)
        ensures
            set@ == texts(sources@),
    {
        let mut pats: Vec<Pattern> = Vec::new();
        let mut i: usize = 0;
        while i < sources.len()
            invariant
                i <= sources.len(),
                pats.len() == i,
                forall|j: int|
                    0 <= j < i ==> (#[trigger] pats@[j])@ == sources@[j]@ && pats@[j].source@
                        == sources@[j]@ && pats@[j].group_count == group_count_of(
                        items_of(sources@[j]@),
                    ),
            decreases sources.len() - i,
        {
            pats.push(Pattern::compile(&sources[i]));
            i = i + 1;
        }
        let set = PatternSet { pats };
        assert(set@ =~= texts(sources@));
        set
    }

    /// Whether the list holds no pattern.
    pub fn is_empty(&self) -> (b: bool)
        ensures
            b == (self@.len() == 0),
    {
        self.pats.len() == 0
    }

    /// Whether any of the patterns matches the whole key.
    pub fn is_match(&self, key: &str) -> (b: bool)
        ensures
            b == any_accepts(self@, key@),
    {
        let mut i: usize = 0;
        while i < self.pats.len()
            invariant
                i <= self.pats.len(),
                forall|j: int| 0 <= j < i ==> !#[trigger] accepts(self@[j], key@),
            decreases self.pats.len() - i,
        {
            assert(self@[i as int] == self.pats@[i as int]@);
            if self.pats[i].is_match(key) {
                return true;
            }
            i = i + 1;
        }
        false
    }

    /// The first matching pattern together with its captures.
    pub fn first_match(&self, key: &str) -> (r: Option<(&Pattern, Captures)>)
        ensures
            match r {
                Some((p, caps)) => exists|i: int|
                    {
                        &&& 0 <= i < self@.len()
                        &&& #[trigger] self@[i] == p@
                        &&& p.source@ == p@
                        &&& p.group_count == group_count_of(items_of(p@))
                        &&& captures_of(p@, key@) == Some(spans_of(caps@))
                        &&& forall|j: int| 0 <= j < i ==> !#[trigger] accepts(self@[j], key@)
                    },
                None => !any_accepts(self@, key@),
            },
    {
        let mut i: usize = 0;
        while i < self.pats.len()
            invariant
                i <= self.pats.len(),
                forall|j: int| 0 <= j < i ==> !#[trigger] accepts(self@[j], key@),
            decreases self.pats.len() - i,
        {
            assert(self@[i as int] == self.pats@[i as int]@);
            if let Some(caps) = self.pats[i].captures(key) {
                proof {
                    use_type_invariant(self);
                }
                return Some((&self.pats[i], caps));
            }
            i = i + 1;
        }
        None
    }
}

} // verus!
