//! The YAML emitter.
//!
//! Lines are never folded, and characters outside the basic plane are written
//! literally. How one scalar is written is [`scalar`].
pub mod reading;
pub mod scalar;

pub use crate::data::emit::scalar::{format_key, format_scalar};

use crate::data::emit::scalar::{deeper, one_line, scalar_at, scalar_text};
use crate::data::load::{table_model, values_model, Value, ValueV};
use crate::text::{
    chars_of, concat, same_sorted_lists, split, split_of, strictly_sorted, text_between, text_lt,
    text_lt_irreflexive, texts,
};
use crate::textmap::TextMap;
use vstd::prelude::*;

verus! {

/// What one level of a [`Tree`] holds: named entries, in order.
pub type Level = Seq<(Seq<char>, EntryV)>;

/// What stands under a name: a value, or a level of its own.
pub enum EntryV {
    Leaf(ValueV),
    Branch(Seq<(Seq<char>, EntryV)>),
}

/// The names of a level.
pub open spec fn names_of(level: Level) -> Seq<Seq<char>> {
    Seq::new(level.len(), |i: int| level[i].0)
}

/// A nested mapping, rebuilt from the flat keys for one output file.
///
/// `entries` holds the children in insertion order. `index` gives each child's
/// position in it, so an insert does not scan the siblings already there.
pub struct Tree {
    entries: Vec<(String, Entry)>,
    index: TextMap<usize>,
}

enum Entry {
    Leaf(Value),
    Branch(Tree),
}

impl Entry {
    spec fn model(self) -> EntryV
        decreases self,
    {
        match self {
            Entry::Leaf(v) => EntryV::Leaf(v@),
            Entry::Branch(t) => EntryV::Branch(t.level()),
        }
    }
}

spec fn entries_model(v: Seq<(String, Entry)>) -> Level {
    Seq::new(v.len(), |i: int| (v[i].0@, v[i].1.model()))
}

impl View for Tree {
    type V = Level;

    closed spec fn view(&self) -> Level {
        self.level()
    }
}

/// The level with a leaf or a branch under the name of `at`.
pub open spec fn placed(level: Level, name: Seq<char>, entry: EntryV) -> Level {
    if names_of(level).contains(name) {
        level.update(names_of(level).index_of(name), (name, entry))
    } else {
        level.push((name, entry))
    }
}

/// The level under a name, empty where there is none.
pub open spec fn branch_at(level: Level, name: Seq<char>) -> Level {
    if names_of(level).contains(name) {
        match level[names_of(level).index_of(name)].1 {
            EntryV::Branch(child) => child,
            EntryV::Leaf(_) => Seq::empty(),
        }
    } else {
        Seq::empty()
    }
}

/// A branch stands under the name.
pub open spec fn has_branch(level: Level, name: Seq<char>) -> bool {
    names_of(level).contains(name) && level[names_of(level).index_of(name)].1 is Branch
}

/// The level with the value at a path. When a leaf and a mapping claim the
/// same path, the mapping wins.
pub open spec fn inserted(level: Level, segments: Seq<Seq<char>>, value: ValueV) -> Level
    decreases segments.len(),
{
    if segments.len() == 0 {
        level
    } else if segments.len() == 1 {
        if has_branch(level, segments[0]) {
            level
        } else {
            placed(level, segments[0], EntryV::Leaf(value))
        }
    } else {
        placed(
            level,
            segments[0],
            EntryV::Branch(inserted(branch_at(level, segments[0]), segments.skip(1), value)),
        )
    }
}

/// `new` is `old` with its names in order, on every level.
pub open spec fn sorts(new: Level, old: Level) -> bool
    decreases old,
{
    &&& new.len() == old.len()
    &&& strictly_sorted(names_of(new))
    &&& forall|i: int|
        0 <= i < old.len() ==> holds_sorted(new, (#[trigger] old[i]).0, old[i].1)
    &&& forall|j: int| 0 <= j < new.len() ==> names_of(old).contains((#[trigger] new[j]).0)
}

/// The level holds the sorted form of `old` under the name.
pub open spec fn holds_sorted(new: Level, name: Seq<char>, old: EntryV) -> bool
    decreases old, 1nat,
{
    exists|j: int|
        0 <= j < new.len() && (#[trigger] new[j]).0 == name && entry_sorts(new[j].1, old)
}

/// `new` is `old` with the names of its levels in order.
pub open spec fn entry_sorts(new: EntryV, old: EntryV) -> bool
    decreases old, 0nat,
{
    match old {
        EntryV::Leaf(_) => new == old,
        EntryV::Branch(level) => match new {
            EntryV::Leaf(_) => false,
            EntryV::Branch(sorted) => sorts(sorted, level),
        },
    }
}

/// A level whose names are in order, on every level below it too.
pub open spec fn in_order(level: Level) -> bool
    decreases level,
{
    &&& strictly_sorted(names_of(level))
    &&& forall|i: int| 0 <= i < level.len() ==> entry_in_order((#[trigger] level[i]).1)
}

/// The levels below an entry are in order.
pub open spec fn entry_in_order(entry: EntryV) -> bool
    decreases entry,
{
    match entry {
        EntryV::Leaf(_) => true,
        EntryV::Branch(child) => in_order(child),
    }
}

impl Tree {
    spec fn level(self) -> Level
        decreases self,
    {
        Seq::new(
            self.entries@.len(),
            |i: int|
                if 0 <= i < self.entries@.len() {
                    (self.entries@[i].0@, self.entries@[i].1.model())
                } else {
                    arbitrary()
                },
        )
    }

    spec fn names(self) -> Seq<Seq<char>> {
        Seq::new(self.entries@.len(), |i: int| self.entries@[i].0@)
    }

    #[verifier::type_invariant]
    spec fn wf(&self) -> bool {
        &&& forall|i: int|
            0 <= i < self.entries.len() ==> self.index@.contains_key(#[trigger] self.names()[i])
                && self.index@[self.names()[i]] == i
        &&& forall|k: Seq<char>| #[trigger]
            self.index@.contains_key(k) ==> self.index@[k] < self.entries.len()
                && self.names()[self.index@[k] as int] == k
    }

    /// A tree without entries.
    pub fn new() -> (t: Tree)
        ensures
            t@ == Seq::<(Seq<char>, EntryV)>::empty(),
    {
        let t = Tree { entries: Vec::new(), index: TextMap::new() };
        assert(t@ =~= Seq::<(Seq<char>, EntryV)>::empty());
        t
    }

    /// Whether the tree has no entry.
    pub fn is_empty(&self) -> (b: bool)
        ensures
            b == (self@.len() == 0),
    {
        self.entries.len() == 0
    }

    /// Finds a child by name.
    fn position_of(&self, seg: &str) -> (r: Option<usize>)
        ensures
            match r {
                Some(i) => {
                    &&& i < self.entries.len()
                    &&& names_of(self@).contains(seg@)
                    &&& names_of(self@).index_of(seg@) == i
                    &&& self.entries@[i as int].0@ == seg@
                },
                None => !names_of(self@).contains(seg@),
            },
            names_of(self@).no_duplicates(),
    {
        proof {
            use_type_invariant(self);
            assert(self.names() =~= names_of(self@));
            assert forall|i: int, j: int|
                0 <= i < self.names().len() && 0 <= j < self.names().len() && i
                    != j implies self.names()[i] != self.names()[j] by {
                assert(self.index@[self.names()[i]] == i);
                assert(self.index@[self.names()[j]] == j);
            }
            let names = self.names();
            if names.contains(seg@) {
                let j = names.index_of(seg@);
                assert(names[j] == seg@);
            }
        }
        match self.index.get(seg) {
            Some(i) => {
                assert(self.names()[*i as int] == seg@);
                Some(*i)
            },
            None => None,
        }
    }

    /// Puts an entry under a name.
    fn place(&mut self, seg: &str, entry: Entry)
        ensures
            final(self)@ == placed(old(self)@, seg@, entry.model()),
    {
        let at = self.position_of(seg);
        proof {
            use_type_invariant(&*self);
        }
        let ghost level = self@;
        let ghost names = self.names();
        let ghost was = *self;
        let ghost model = entry.model();
        let mut own = Tree::new();
        std::mem::swap(self, &mut own);
        let Tree { mut entries, mut index } = own;
        match at {
            Some(i) => {
                entries.set(i, (seg.to_owned(), entry));
                proof {
                    let now = Tree { entries, index };
                    assert(now.names() =~= names);
                    assert(now@ =~= level.update(i as int, (seg@, model)));
                }
            },
            None => {
                index.insert(seg.to_owned(), entries.len());
                entries.push((seg.to_owned(), entry));
                proof {
                    let now = Tree { entries, index };
                    assert(names_of(level) =~= names);
                    assert(now.names() =~= names.push(seg@));
                    assert(now@ =~= level.push((seg@, model)));
                    assert forall|j: int| 0 <= j < entries.len() implies index@.contains_key(
                        #[trigger] now.names()[j],
                    ) && index@[now.names()[j]] == j by {
                        if j < names.len() {
                            assert(names[j] == now.names()[j]);
                            assert(names.contains(names[j]));
                        }
                    }
                    assert forall|k: Seq<char>| #[trigger] index@.contains_key(k) implies index@[k]
                        < entries.len() && now.names()[index@[k] as int] == k by {
                        if k != seg@ {
                            assert(was.index@.contains_key(k));
                        }
                    }
                }
            },
        }
        *self = Tree { entries, index };
    }

    /// Takes the level under a name out, or an empty one where there is none.
    fn take_branch(&mut self, seg: &str) -> (child: Tree)
        ensures
            child@ == branch_at(old(self)@, seg@),
            names_of(final(self)@) == names_of(old(self)@),
            names_of(old(self)@).no_duplicates(),
            forall|i: int|
                0 <= i < old(self)@.len() && old(self)@[i].0 != seg@ ==> #[trigger] final(self)@[i]
                    == old(self)@[i],
    {
        let at = self.position_of(seg);
        proof {
            use_type_invariant(&*self);
        }
        match at {
            Some(i) => {
                let ghost level = self@;
                let ghost names = self.names();
                let mut own = Tree::new();
                std::mem::swap(self, &mut own);
                let Tree { mut entries, index } = own;
                let ghost old_entry = entries@[i as int];
                assert(level[i as int] == (old_entry.0@, old_entry.1.model()));
                let (name, entry) = entries.remove(i);
                let child = match entry {
                    Entry::Branch(t) => t,
                    Entry::Leaf(_) => Tree::new(),
                };
                entries.insert(i, (name, Entry::Leaf(Value::Nil)));
                proof {
                    let now = Tree { entries, index };
                    assert(now.names() =~= names);
                    assert(names_of(now@) =~= names_of(level));
                }
                *self = Tree { entries, index };
                child
            },
            None => Tree::new(),
        }
    }

    /// Inserts a dotted key. The split is on every dot.
    pub fn insert(&mut self, key: &str, value: Value)
        ensures
            final(self)@ == inserted(old(self)@, split_of(key@, '.'), value@),
    {
        let segments = split(key, '.');
        self.insert_segments(&segments, value);
    }

    /// Inserts by real segments, which is what a key holding a dot needs.
    pub fn insert_segments(&mut self, segments: &Vec<String>, value: Value)
        ensures
            final(self)@ == inserted(old(self)@, texts(segments@), value@),
    {
        assert(texts(segments@).skip(0) =~= texts(segments@));
        self.insert_from(segments, 0, value);
    }

    fn insert_from(&mut self, segments: &Vec<String>, from: usize, value: Value)
        requires
            from <= segments.len(),
        ensures
            final(self)@ == inserted(old(self)@, texts(segments@).skip(from as int), value@),
        decreases segments.len() - from,
    {
        let ghost path = texts(segments@).skip(from as int);
        let ghost level = self@;
        if from == segments.len() {
            return ;
        }
        let seg = &segments[from];
        assert(path[0] == seg@);
        if from + 1 == segments.len() {
            // The mapping wins, so an existing one is left alone.
            let keep = match self.position_of(seg) {
                Some(i) => {
                    assert(level[i as int].1 == self.entries@[i as int].1.model());
                    matches!(self.entries[i].1, Entry::Branch(_))
                },
                None => false,
            };
            if !keep {
                self.place(seg, Entry::Leaf(value));
            }
        } else {
            let mut child = self.take_branch(seg);
            assert(path.skip(1) =~= texts(segments@).skip(from + 1));
            child.insert_from(segments, from + 1, value);
            let ghost entry = Entry::Branch(child).model();
            let ghost mid = self@;
            self.place(seg, Entry::Branch(child));
            proof {
                assert(names_of(mid) == names_of(level));
                assert(mid.len() == names_of(mid).len() && level.len() == names_of(level).len());
                let want = placed(level, seg@, entry);
                assert(self@ =~= want) by {
                    assert forall|i: int| 0 <= i < want.len() implies #[trigger] self@[i]
                        == want[i] by {
                        if i < level.len() {
                            assert(names_of(level)[i] == level[i].0);
                            if level[i].0 != seg@ {
                                assert(mid[i] == level[i]);
                            } else {
                                assert(names_of(level).contains(seg@));
                                assert(names_of(level).index_of(seg@) == i);
                            }
                        }
                    }
                }
            }
        }
    }

    /// Sorts every level, recursively, by the code points of the names.
    pub fn sort(&mut self)
        ensures
            sorts(final(self)@, old(self)@),
            in_order(final(self)@),
            final(self)@ == sorted_level(old(self)@),
    {
        let mut own = Tree::new();
        std::mem::swap(self, &mut own);
        let ghost before = own@;
        let sorted = own.sorted();
        proof {
            one_sorted_form(sorted@, sorted_level(before), before);
        }
        *self = sorted;
    }

    #[verifier::loop_isolation(false)]
    fn sorted(self) -> (t: Tree)
        ensures
            sorts(t@, self@),
            in_order(t@),
        decreases self,
    {
        proof {
            use_type_invariant(&self);
        }
        let ghost level = self@;
        let ghost all = self.entries;
        let ghost names = self.names();
        assert(names =~= names_of(level));
        let mut entries = self.entries;
        let mut map: TextMap<Entry> = TextMap::new();
        while entries.len() > 0
            invariant
                entries.len() <= all.len(),
                entries@ == all@.take(entries.len() as int),
                forall|k: Seq<char>| #[trigger]
                    map@.contains_key(k) <==> exists|i: int|
                        entries.len() <= i < all.len() && #[trigger] names[i] == k,
                forall|i: int|
                    entries.len() <= i < all.len() ==> entry_sorts(
                        map@[#[trigger] names[i]].model(),
                        level[i].1,
                    ),
                forall|k: Seq<char>| #[trigger]
                    map@.contains_key(k) ==> entry_in_order(map@[k].model()),
            decreases entries.len(),
        {
            let ghost before = map@;
            let ghost n = entries.len() - 1;
            let popped = entries.pop();
            if let Some((name, entry)) = popped {
                assert((name, entry) == all@[n]);
                assert(decreases_to!(all => all@[n]));
                assert(level[n] == (name@, entry.model()));
                assert(names[n] == name@);
                let done = match entry {
                    Entry::Leaf(v) => Entry::Leaf(v),
                    Entry::Branch(child) => Entry::Branch(child.sorted()),
                };
                assert(entry_sorts(done.model(), level[n].1));
                map.insert(name, done);
                proof {
                    assert(entries@ =~= all@.take(n));
                    assert forall|k: Seq<char>| #[trigger] map@.contains_key(k) <==> exists|i: int|
                        n <= i < all.len() && #[trigger] names[i] == k by {
                        if map@.contains_key(k) && k != names[n] {
                            assert(before.contains_key(k));
                        }
                        if exists|i: int| n <= i < all.len() && #[trigger] names[i] == k {
                            let i = choose|i: int| n <= i < all.len() && #[trigger] names[i] == k;
                            if i > n {
                                assert(before.contains_key(k));
                            }
                        }
                    }
                    assert forall|i: int| n <= i < all.len() implies entry_sorts(
                        map@[#[trigger] names[i]].model(),
                        level[i].1,
                    ) by {
                        if i > n {
                            assert(self.index@[names[i]] == i);
                            assert(self.index@[names[n]] == n);
                        }
                    }
                }
            }
        }
        let ghost found = map@;
        let ghost order = map.order();
        let entries = map.into_entries();
        let mut index: TextMap<usize> = TextMap::new();
        let mut k: usize = 0;
        while k < entries.len()
            invariant
                k <= entries.len(),
                entries.len() == order.len(),
                strictly_sorted(order),
                forall|i: int| 0 <= i < entries.len() ==> (#[trigger] entries@[i]).0@ == order[i],
                forall|i: int|
                    0 <= i < k ==> index@.contains_key(#[trigger] order[i]) && index@[order[i]]
                        == i,
                forall|n: Seq<char>| #[trigger]
                    index@.contains_key(n) ==> index@[n] < k && order[index@[n] as int] == n,
            decreases entries.len() - k,
        {
            let ghost before = index@;
            index.insert(entries[k].0.clone(), k);
            proof {
                assert forall|i: int| 0 <= i < k + 1 implies index@.contains_key(
                    #[trigger] order[i],
                ) && index@[order[i]] == i by {
                    if i < k {
                        text_lt_irreflexive(order[i]);
                        assert(text_lt(order[i], order[k as int]));
                    }
                }
                assert forall|n: Seq<char>| #[trigger] index@.contains_key(n) implies index@[n] < k
                    + 1 && order[index@[n] as int] == n by {
                    if n != order[k as int] {
                        assert(before.contains_key(n));
                    }
                }
            }
            k = k + 1;
        }
        let t = Tree { entries, index };
        proof {
            assert(t.names() =~= order);
            assert(names_of(t@) =~= order);
            assert forall|i: int| 0 <= i < level.len() implies holds_sorted(
                t@,
                (#[trigger] level[i]).0,
                level[i].1,
            ) by {
                assert(names[i] == level[i].0);
                assert(found.contains_key(names[i]));
                assert(order.contains(names[i]));
                let j = order.index_of(names[i]);
                assert(t@[j].0 == order[j]);
                assert(t.entries@[j].1 == found[names[i]]);
            }
            same_length(order, names, found);
            assert forall|j: int| 0 <= j < t@.len() implies names_of(level).contains(
                (#[trigger] t@[j]).0,
            ) by {
                assert(t@[j].0 == order[j]);
                assert(found.contains_key(order[j]));
            }
            assert(t@.len() == order.len());
            assert(names_of(t@).len() == t@.len());
            assert(level.len() == names.len());
            assert(strictly_sorted(names_of(t@)));
            assert(sorts(t@, level));
            assert forall|i: int| 0 <= i < t@.len() implies entry_in_order(
                (#[trigger] t@[i]).1,
            ) by {
                assert(t.entries@[i].1 == found[order[i]]);
                assert(found.contains_key(order[i]));
            }
        }
        t
    }
}

proof fn same_length(order: Seq<Seq<char>>, names: Seq<Seq<char>>, found: Map<Seq<char>, Entry>)
    requires
        strictly_sorted(order),
        forall|k: Seq<char>| #[trigger] found.contains_key(k) <==> order.contains(k),
        forall|k: Seq<char>| #[trigger]
            found.contains_key(k) <==> exists|i: int| 0 <= i < names.len() && #[trigger] names[i] == k,
        names.no_duplicates(),
    ensures
        order.len() == names.len(),
{
    assert(order.no_duplicates()) by {
        assert forall|i: int, j: int| 0 <= i < j < order.len() implies order[i] != order[j] by {
            text_lt_irreflexive(order[i]);
            assert(text_lt(order[i], order[j]));
        }
    }
    assert(order.to_set() =~= names.to_set()) by {
        assert forall|k: Seq<char>| order.to_set().contains(k) <==> names.to_set().contains(k) by {
            if order.contains(k) {
                assert(found.contains_key(k));
            }
            if names.contains(k) {
                let i = names.index_of(k);
                assert(names[i] == k);
                assert(found.contains_key(k));
            }
        }
    }
    order.unique_seq_to_set();
    names.unique_seq_to_set();
}

// --------------------------------------------------------------------- writing

/// The block behind a dash: `- ` stands over the last two spaces of the
/// indentation of its first line.
pub open spec fn dashed(block: Seq<char>, pad: Seq<char>) -> Seq<char> {
    pad + "- "@ + block.skip(pad.len() as int + 2)
}

/// The first `n` entries of a level, each behind `pad`.
pub open spec fn written_level(level: Level, n: nat, pad: Seq<char>) -> Seq<char>
    decreases level, n,
{
    if n == 0 || n > level.len() {
        Seq::empty()
    } else {
        written_level(level, (n - 1) as nat, pad) + pad + one_line(level[n - 1].0)
            + written_entry(level[n - 1].1, pad)
    }
}

/// The part after a name, with its line break.
pub open spec fn written_entry(entry: EntryV, pad: Seq<char>) -> Seq<char>
    decreases entry,
{
    match entry {
        EntryV::Branch(child) => if child.len() == 0 {
            ": {}\n"@
        } else {
            ":\n"@ + written_level(child, child.len(), deeper(pad))
        },
        EntryV::Leaf(value) => written_value(value, pad),
    }
}

/// The part after the name of a value, with its line break. A sequence sits at
/// the indent of its own key.
pub open spec fn written_value(value: ValueV, pad: Seq<char>) -> Seq<char>
    decreases value, 0nat,
{
    match value {
        ValueV::Nil => ":\n"@,
        ValueV::List(items) => if items.len() == 0 {
            ": []\n"@
        } else {
            ":\n"@ + written_items(items, items.len(), pad)
        },
        ValueV::Table(entries) => if entries.len() == 0 {
            ": {}\n"@
        } else {
            ":\n"@ + written_table(entries, entries.len(), deeper(pad))
        },
        _ => ": "@ + scalar_text(value, pad) + "\n"@,
    }
}

/// The first `n` named values, each behind `pad`.
pub open spec fn written_table(
    entries: Seq<(Seq<char>, ValueV)>,
    n: nat,
    pad: Seq<char>,
) -> Seq<char>
    decreases entries, n,
{
    if n == 0 || n > entries.len() {
        Seq::empty()
    } else {
        written_table(entries, (n - 1) as nat, pad) + pad + one_line(entries[n - 1].0)
            + written_value(entries[n - 1].1, pad)
    }
}

/// The first `n` items of a sequence, each behind a dash.
pub open spec fn written_items(items: Seq<ValueV>, n: nat, pad: Seq<char>) -> Seq<char>
    decreases items, n,
{
    if n == 0 || n > items.len() {
        Seq::empty()
    } else {
        written_items(items, (n - 1) as nat, pad) + written_item(items[n - 1], pad)
    }
}

/// One item of a sequence: a nested collection lines up under the dash.
pub open spec fn written_item(item: ValueV, pad: Seq<char>) -> Seq<char>
    decreases item, 1nat,
{
    match item {
        ValueV::Nil => pad + "-\n"@,
        ValueV::List(inner) => if inner.len() == 0 {
            pad + "- []\n"@
        } else {
            dashed(written_items(inner, inner.len(), deeper(pad)), pad)
        },
        ValueV::Table(inner) => if inner.len() == 0 {
            pad + "- {}\n"@
        } else {
            dashed(written_table(inner, inner.len(), deeper(pad)), pad)
        },
        _ => dashed(deeper(pad) + scalar_text(item, pad) + "\n"@, pad),
    }
}

/// One locale file: `---`, the locale, and then the tree.
pub open spec fn emitted(locale: Seq<char>, level: Level) -> Seq<char> {
    if level.len() == 0 {
        "---\n"@ + one_line(locale) + ": {}\n"@
    } else {
        "---\n"@ + one_line(locale) + ":\n"@ + written_level(level, level.len(), "  "@)
    }
}

fn dash(block: &str, pad: &str) -> (out: String)
    requires
        block@.len() >= pad@.len() + 2,
    ensures
        out@ == dashed(block@, pad@),
{
    let v = chars_of(block);
    let w = chars_of(pad);
    let end = v.len();
    let rest = text_between(&v, w.len() + 2, end);
    assert(rest@ =~= block@.skip(pad@.len() as int + 2));
    concat(&concat(pad, "- "), &rest)
}

/// Writes the part after a name.
fn write_value(out: &mut String, value: &Value, pad: &str)
    ensures
        final(out)@ == old(out)@ + written_value(value@, pad@),
    decreases value, 0nat,
{
    match value {
        Value::Nil => {
            out.append(":\n");
        },
        Value::List(items) => {
            assert(value@->List_0 =~= values_model(items@));
            if items.len() == 0 {
                out.append(": []\n");
            } else {
                out.append(":\n");
                write_items(out, items, pad);
                assert(out@ =~= old(out)@ + written_value(value@, pad@));
            }
        },
        Value::Table(entries) => {
            assert(value@->Table_0 =~= table_model(entries@));
            if entries.len() == 0 {
                out.append(": {}\n");
            } else {
                out.append(":\n");
                write_table(out, entries, &concat(pad, "  "));
                assert(out@ =~= old(out)@ + written_value(value@, pad@));
            }
        },
        _ => {
            out.append(": ");
            out.append(&scalar_at(value, pad));
            out.append("\n");
            assert(out@ =~= old(out)@ + written_value(value@, pad@));
        },
    }
}

#[verifier::loop_isolation(false)]
fn write_table(out: &mut String, entries: &Vec<(String, Value)>, pad: &str)
    ensures
        final(out)@ == old(out)@ + written_table(
            table_model(entries@),
            entries.len() as nat,
            pad@,
        ),
    decreases entries, 0nat,
{
    let ghost model = table_model(entries@);
    let mut i: usize = 0;
    assert(out@ + written_table(model, 0, pad@) =~= out@);
    while i < entries.len()
        invariant
            i <= entries.len(),
            out@ == old(out)@ + written_table(model, i as nat, pad@),
        decreases entries.len() - i,
    {
        assert(decreases_to!(*entries => entries@[i as int]));
        let entry = &entries[i];
        assert(model[i as int] == (entry.0@, entry.1@));
        out.append(pad);
        out.append(&format_key(&entry.0));
        write_value(out, &entry.1, pad);
        assert(out@ =~= old(out)@ + written_table(model, (i + 1) as nat, pad@));
        i = i + 1;
    }
}

#[verifier::loop_isolation(false)]
fn write_items(out: &mut String, items: &Vec<Value>, pad: &str)
    ensures
        final(out)@ == old(out)@ + written_items(values_model(items@), items.len() as nat, pad@),
    decreases items, 0nat,
{
    let ghost model = values_model(items@);
    let mut i: usize = 0;
    assert(out@ + written_items(model, 0, pad@) =~= out@);
    while i < items.len()
        invariant
            i <= items.len(),
            out@ == old(out)@ + written_items(model, i as nat, pad@),
        decreases items.len() - i,
    {
        assert(decreases_to!(*items => items@[i as int]));
        write_item(out, &items[i], pad);
        assert(model[i as int] == items@[i as int]@);
        assert(out@ =~= old(out)@ + written_items(model, (i + 1) as nat, pad@));
        i = i + 1;
    }
}

/// Renders the item one level in, then puts the dash over the last two spaces
/// of its first line.
fn write_item(out: &mut String, item: &Value, pad: &str)
    ensures
        final(out)@ == old(out)@ + written_item(item@, pad@),
    decreases item, 1nat,
{
    let deep = concat(pad, "  ");
    let mut block = String::new();
    proof {
        reveal_strlit("  ");
    }
    match item {
        Value::Nil => {
            out.append(pad);
            out.append("-\n");
            assert(out@ =~= old(out)@ + written_item(item@, pad@));
            return ;
        },
        Value::List(inner) => {
            assert(item@->List_0 =~= values_model(inner@));
            if inner.len() == 0 {
                out.append(pad);
                out.append("- []\n");
                assert(out@ =~= old(out)@ + written_item(item@, pad@));
                return ;
            }
            write_items(&mut block, inner, &deep);
            proof {
                let model = values_model(inner@);
                assert(block@ =~= written_items(model, model.len(), deep@));
                item_is_indented(model[model.len() - 1], deep@);
            }
        },
        Value::Table(inner) => {
            assert(item@->Table_0 =~= table_model(inner@));
            if inner.len() == 0 {
                out.append(pad);
                out.append("- {}\n");
                assert(out@ =~= old(out)@ + written_item(item@, pad@));
                return ;
            }
            write_table(&mut block, inner, &deep);
            assert(block@ =~= written_table(
                table_model(inner@),
                table_model(inner@).len(),
                deep@,
            ));
        },
        _ => {
            block.append(&deep);
            block.append(&scalar_at(item, pad));
            block.append("\n");
            assert(block@ =~= deeper(pad@) + scalar_text(item@, pad@) + "\n"@);
        },
    }
    out.append(&dash(&block, pad));
}

proof fn item_is_indented(item: ValueV, pad: Seq<char>)
    ensures
        written_item(item, pad).len() >= pad.len(),
{
}

#[verifier::loop_isolation(false)]
fn write_level(out: &mut String, tree: &Tree, pad: &str)
    ensures
        final(out)@ == old(out)@ + written_level(tree@, tree@.len(), pad@),
    decreases tree,
{
    let ghost model = tree@;
    let mut i: usize = 0;
    assert(out@ + written_level(model, 0, pad@) =~= out@);
    while i < tree.entries.len()
        invariant
            i <= tree.entries.len(),
            model == tree@,
            out@ == old(out)@ + written_level(model, i as nat, pad@),
        decreases tree.entries.len() - i,
    {
        assert(decreases_to!(tree.entries => tree.entries@[i as int]));
        let entry = &tree.entries[i];
        assert(model[i as int] == (entry.0@, entry.1.model()));
        out.append(pad);
        out.append(&format_key(&entry.0));
        let ghost before = out@;
        match &entry.1 {
            Entry::Branch(child) => {
                if child.is_empty() {
                    out.append(": {}\n");
                } else {
                    out.append(":\n");
                    write_level(out, child, &concat(pad, "  "));
                    assert(out@ =~= before + written_entry(entry.1.model(), pad@));
                }
            },
            Entry::Leaf(value) => {
                write_value(out, value, pad);
            },
        }
        assert(out@ == before + written_entry(entry.1.model(), pad@));
        assert(out@ =~= old(out)@ + written_level(model, (i + 1) as nat, pad@));
        i = i + 1;
    }
}

/// Emits one locale file: `---`, the locale root, then the tree.
pub fn emit_locale(locale: &str, tree: &Tree) -> (out: String)
    ensures
        out@ == emitted(locale@, tree@),
{
    let mut out = "---\n".to_owned();
    out.append(&format_key(locale));
    if tree.is_empty() {
        out.append(": {}\n");
        return out;
    }
    out.append(":\n");
    write_level(&mut out, tree, "  ");
    out
}

// ------------------------------------------------------------------------ laws

proof fn sorted_position(new: Level, old: Level, i: int, j: int)
    requires
        new.len() == old.len(),
        strictly_sorted(names_of(new)),
        strictly_sorted(names_of(old)),
        forall|i: int|
            0 <= i < old.len() ==> names_of(new).contains(#[trigger] names_of(old)[i]),
        0 <= i < old.len(),
        0 <= j < new.len(),
        names_of(new)[j] == names_of(old)[i],
    ensures
        i == j,
{
    let a = names_of(new);
    let b = names_of(old);
    assert(a =~= b) by {
        same_sorted_lists(a, b);
    }
    text_lt_irreflexive(a[j]);
    if i < j {
        assert(text_lt(a[i], a[j]));
    }
    if j < i {
        assert(text_lt(a[j], a[i]));
    }
}

/// Sorting a tree that is in order changes nothing.
pub proof fn sorting_again_changes_nothing(new: Level, old: Level)
    requires
        sorts(new, old),
        in_order(old),
    ensures
        new == old,
    decreases old,
{
    assert forall|i: int| 0 <= i < old.len() implies names_of(new).contains(
        #[trigger] names_of(old)[i],
    ) by {
        assert(old[i].0 == names_of(old)[i]);
        assert(holds_sorted(new, old[i].0, old[i].1));
        let j = choose|j: int|
            0 <= j < new.len() && (#[trigger] new[j]).0 == old[i].0 && entry_sorts(
                new[j].1,
                old[i].1,
            );
        assert(names_of(new)[j] == old[i].0);
    }
    assert forall|i: int| 0 <= i < old.len() implies new[i] == old[i] by {
        assert(holds_sorted(new, old[i].0, old[i].1));
        let j = choose|j: int|
            0 <= j < new.len() && (#[trigger] new[j]).0 == old[i].0 && entry_sorts(
                new[j].1,
                old[i].1,
            );
        assert(old[i].0 == names_of(old)[i]);
        assert(names_of(new)[j] == new[j].0);
        sorted_position(new, old, i, j);
        match old[i].1 {
            EntryV::Leaf(_) => {},
            EntryV::Branch(child) => {
                assert(entry_in_order(old[i].1));
                match new[i].1 {
                    EntryV::Leaf(_) => {},
                    EntryV::Branch(sorted) => {
                        sorting_again_changes_nothing(sorted, child);
                    },
                }
            },
        }
    }
    assert(new =~= old);
}

/// The level with its names in order, on every level.
pub open spec fn sorted_level(old: Level) -> Level {
    choose|new: Level| sorts(new, old)
}

/// There is one sorted form of a level.
pub proof fn one_sorted_form(a: Level, b: Level, old: Level)
    requires
        sorts(a, old),
        sorts(b, old),
    ensures
        a == b,
    decreases old,
{
    let x = names_of(a);
    let y = names_of(b);
    assert forall|i: int| 0 <= i < y.len() implies x.contains(#[trigger] y[i]) by {
        assert(names_of(old).contains(b[i].0));
        let k = names_of(old).index_of(b[i].0);
        assert(old[k].0 == b[i].0);
        assert(holds_sorted(a, old[k].0, old[k].1));
        let j = choose|j: int|
            0 <= j < a.len() && (#[trigger] a[j]).0 == old[k].0 && entry_sorts(a[j].1, old[k].1);
        assert(x[j] == y[i]);
    }
    same_sorted_lists(x, y);
    assert forall|i: int| 0 <= i < a.len() implies a[i] == b[i] by {
        assert(x[i] == a[i].0 && y[i] == b[i].0);
        assert(names_of(old).contains(a[i].0));
        let k = names_of(old).index_of(a[i].0);
        assert(old[k].0 == a[i].0);
        assert(holds_sorted(a, old[k].0, old[k].1));
        assert(holds_sorted(b, old[k].0, old[k].1));
        let p = choose|j: int|
            0 <= j < a.len() && (#[trigger] a[j]).0 == old[k].0 && entry_sorts(a[j].1, old[k].1);
        let q = choose|j: int|
            0 <= j < b.len() && (#[trigger] b[j]).0 == old[k].0 && entry_sorts(b[j].1, old[k].1);
        one_place(x, p, i);
        one_place(y, q, i);
        match old[k].1 {
            EntryV::Leaf(_) => {},
            EntryV::Branch(child) => {
                match (a[i].1, b[i].1) {
                    (EntryV::Branch(s), EntryV::Branch(t)) => {
                        one_sorted_form(s, t, child);
                    },
                    _ => {},
                }
            },
        }
    }
    assert(a =~= b);
}

proof fn one_place(names: Seq<Seq<char>>, i: int, j: int)
    requires
        strictly_sorted(names),
        0 <= i < names.len(),
        0 <= j < names.len(),
        names[i] == names[j],
    ensures
        i == j,
{
    text_lt_irreflexive(names[i]);
    if i < j {
        assert(text_lt(names[i], names[j]));
    }
    if j < i {
        assert(text_lt(names[j], names[i]));
    }
}

} // verus!
