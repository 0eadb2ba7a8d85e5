//! Locale data, flattened to a list of leaves.
use crate::paths::{is_same_path, key_of_path, path_key, same_path};
use crate::plural::{is_plural_suffix, plural_suffix};
use crate::text::{
    alphanumeric, chars_of, concat, debug_of, debug_text, decimal, decimal_text, distinct_is_unique,
    has_char, is_alphanumeric_of, join, join_of, position_from, position_is_first, position_of,
    push_text, same_sorted_lists, same_text, split, split_of, strictly_sorted, text_between,
    text_lt, text_lt_irreflexive, text_lt_total, text_lt_transitive, texts,
};
use crate::textmap::{listed, TextMap};
use crate::yaml::{
    entries_model, is_null_scalar, nodes_model, null_scalar, resolve_plain, resolved, Node, NodeV,
    Resolved,
};
use vstd::prelude::*;

verus! {

/// A leaf value. Anything that is not a mapping is a leaf.
#[derive(Debug, PartialEq)]
pub enum Value {
    Str(String),
    Nil,
    Bool(bool),
    /// The scalar as written, for a number or any other plain scalar.
    Plain(String),
    /// A sequence, which counts as one leaf.
    List(Vec<Value>),
    /// A mapping nested inside a sequence.
    Table(Vec<(String, Value)>),
}

/// What a [`Value`] holds.
pub enum ValueV {
    Str(Seq<char>),
    Nil,
    Bool(bool),
    Plain(Seq<char>),
    List(Seq<ValueV>),
    Table(Seq<(Seq<char>, ValueV)>),
}

impl View for Value {
    type V = ValueV;

    open spec fn view(&self) -> ValueV {
        self.model()
    }
}

/// What a list of values holds.
pub open spec fn values_model(v: Seq<Value>) -> Seq<ValueV> {
    Seq::new(v.len(), |i: int| v[i]@)
}

/// What a list of named values holds.
pub open spec fn table_model(v: Seq<(String, Value)>) -> Seq<(Seq<char>, ValueV)> {
    Seq::new(v.len(), |i: int| (v[i].0@, v[i].1@))
}

/// `true` or `false`.
pub open spec fn bool_text(b: bool) -> Seq<char> {
    if b {
        "true"@
    } else {
        "false"@
    }
}

impl ValueV {
    /// The form in which Ruby inspects the value.
    pub open spec fn inspected(self) -> Seq<char>
        decreases self,
    {
        match self {
            ValueV::Str(s) => debug_of(s),
            ValueV::Nil => "nil"@,
            ValueV::Bool(b) => bool_text(b),
            ValueV::Plain(s) => s,
            ValueV::List(items) => "["@ + join_of(inspected_list(items), ", "@) + "]"@,
            ValueV::Table(entries) => "{"@ + join_of(inspected_table(entries), ", "@) + "}"@,
        }
    }

    /// The form in which Ruby prints the value.
    pub open spec fn displayed(self) -> Seq<char> {
        match self {
            ValueV::Str(s) => s,
            ValueV::Plain(s) => s,
            ValueV::Nil => Seq::empty(),
            ValueV::Bool(b) => bool_text(b),
            ValueV::List(_) => self.inspected(),
            ValueV::Table(_) => self.inspected(),
        }
    }

    /// The text of a string or of a plain scalar.
    pub open spec fn text(self) -> Option<Seq<char>> {
        match self {
            ValueV::Str(s) => Some(s),
            ValueV::Plain(s) => Some(s),
            _ => None,
        }
    }
}

/// The inspected items of a sequence.
pub open spec fn inspected_list(items: Seq<ValueV>) -> Seq<Seq<char>>
    decreases items,
{
    Seq::new(
        items.len(),
        |i: int|
            if 0 <= i < items.len() {
                items[i].inspected()
            } else {
                Seq::empty()
            },
    )
}

/// The inspected entries of a mapping.
pub open spec fn inspected_table(entries: Seq<(Seq<char>, ValueV)>) -> Seq<Seq<char>>
    decreases entries,
{
    Seq::new(
        entries.len(),
        |i: int|
            if 0 <= i < entries.len() {
                debug_of(entries[i].0) + " => "@ + entries[i].1.inspected()
            } else {
                Seq::empty()
            },
    )
}

pub(crate) fn show_bool(b: bool) -> (out: String)
    ensures
        out@ == bool_text(b),
{
    if b {
        "true".to_owned()
    } else {
        "false".to_owned()
    }
}

impl Value {
    /// What the value holds.
    pub open spec fn model(self) -> ValueV
        decreases self,
    {
        match self {
            Value::Str(s) => ValueV::Str(s@),
            Value::Nil => ValueV::Nil,
            Value::Bool(b) => ValueV::Bool(b),
            Value::Plain(s) => ValueV::Plain(s@),
            Value::List(items) => ValueV::List(
                Seq::new(
                    items@.len(),
                    |i: int|
                        if 0 <= i < items@.len() {
                            items@[i].model()
                        } else {
                            arbitrary()
                        },
                ),
            ),
            Value::Table(entries) => ValueV::Table(
                Seq::new(
                    entries@.len(),
                    |i: int|
                        if 0 <= i < entries@.len() {
                            (entries@[i].0@, entries@[i].1.model())
                        } else {
                            arbitrary()
                        },
                ),
            ),
        }
    }

    /// The form in which Ruby prints the value: a string is bare, a collection
    /// is inspected.
    pub fn to_display_string(&self) -> (out: String)
        ensures
            out@ == self@.displayed(),
    {
        match self {
            Value::Str(s) => s.clone(),
            Value::Plain(s) => s.clone(),
            Value::Nil => String::new(),
            Value::Bool(b) => show_bool(*b),
            Value::List(_) => self.inspect(),
            Value::Table(_) => self.inspect(),
        }
    }

    #[verifier::loop_isolation(false)]
    fn inspect(&self) -> (out: String)
        ensures
            out@ == self@.inspected(),
        decreases self,
    {
        match self {
            Value::Str(s) => debug_text(s),
            Value::Nil => "nil".to_owned(),
            Value::Bool(b) => show_bool(*b),
            Value::Plain(s) => s.clone(),
            Value::List(items) => {
                let ghost model = self@->List_0;
                let mut inner: Vec<String> = Vec::new();
                let mut i: usize = 0;
                while i < items.len()
                    invariant
                        i <= items.len(),
                        inner.len() == i,
                        model == values_model(items@),
                        *self == Value::List(*items),
                        forall|j: int| 0 <= j < i ==> #[trigger] inner@[j]@ == model[j].inspected(),
                    decreases items.len() - i,
                {
                    assert(decreases_to!(*items => items@[i as int]));
                    inner.push(items[i].inspect());
                    i = i + 1;
                }
                assert(texts(inner@) =~= inspected_list(model));
                concat(&concat("[", &join(&inner, ", ")), "]")
            },
            Value::Table(entries) => {
                let ghost model = self@->Table_0;
                let mut inner: Vec<String> = Vec::new();
                let mut i: usize = 0;
                while i < entries.len()
                    invariant
                        i <= entries.len(),
                        inner.len() == i,
                        model == table_model(entries@),
                        *self == Value::Table(*entries),
                        forall|j: int|
                            0 <= j < i ==> #[trigger] inner@[j]@ == debug_of(model[j].0) + " => "@
                                + model[j].1.inspected(),
                    decreases entries.len() - i,
                {
                    let entry = &entries[i];
                    assert(decreases_to!(*entries => entries@[i as int]));
                    inner.push(
                        concat(&concat(&debug_text(&entry.0), " => "), &entry.1.inspect()),
                    );
                    i = i + 1;
                }
                assert(texts(inner@) =~= inspected_table(model));
                concat(&concat("{", &join(&inner, ", ")), "}")
            },
        }
    }

    /// The text of a string or of a plain scalar.
    pub fn as_str(&self) -> (r: Option<&str>)
        ensures
            match r {
                Some(s) => self@.text() == Some(s@),
                None => self@.text() is None,
            },
    {
        match self {
            Value::Str(s) => Some(s.as_str()),
            Value::Plain(s) => Some(s.as_str()),
            _ => None,
        }
    }
}

impl Clone for Value {
    #[verifier::loop_isolation(false)]
    fn clone(&self) -> (r: Value)
        ensures
            r@ == self@,
        decreases self,
    {
        match self {
            Value::Str(s) => Value::Str(s.clone()),
            Value::Nil => Value::Nil,
            Value::Bool(b) => Value::Bool(*b),
            Value::Plain(s) => Value::Plain(s.clone()),
            Value::List(items) => {
                let mut out: Vec<Value> = Vec::new();
                let mut i: usize = 0;
                while i < items.len()
                    invariant
                        i <= items.len(),
                        out.len() == i,
                        forall|j: int| 0 <= j < i ==> #[trigger] out@[j]@ == items@[j]@,
                    decreases items.len() - i,
                {
                    assert(decreases_to!(*items => items@[i as int]));
                    out.push(items[i].clone());
                    i = i + 1;
                }
                let r = Value::List(out);
                assert forall|j: int| 0 <= j < items.len() implies r@->List_0[j]
                    == self@->List_0[j] by {
                    assert(out@[j]@ == items@[j]@);
                }
                assert(r@->List_0 =~= self@->List_0);
                r
            },
            Value::Table(entries) => {
                let mut out: Vec<(String, Value)> = Vec::new();
                let mut i: usize = 0;
                while i < entries.len()
                    invariant
                        i <= entries.len(),
                        out.len() == i,
                        forall|j: int|
                            0 <= j < i ==> #[trigger] out@[j].0@ == entries@[j].0@ && out@[j].1@
                                == entries@[j].1@,
                    decreases entries.len() - i,
                {
                    assert(decreases_to!(*entries => entries@[i as int]));
                    let entry = &entries[i];
                    out.push((entry.0.clone(), entry.1.clone()));
                    i = i + 1;
                }
                let r = Value::Table(out);
                assert forall|j: int| 0 <= j < entries.len() implies r@->Table_0[j]
                    == self@->Table_0[j] by {
                    assert(out@[j].0@ == entries@[j].0@);
                }
                assert(r@->Table_0 =~= self@->Table_0);
                r
            },
        }
    }
}

// --------------------------------------------------------------------- leaves

/// One translation.
pub struct Leaf {
    /// The dotted key, without the locale.
    pub key: String,
    pub value: Value,
    /// Number of key levels.
    pub depth: u16,
    /// The file that the leaf comes from.
    pub path: String,
    /// Set only when a key segment holds a dot, which the dotted form cannot
    /// express.
    pub odd_segments: Option<Vec<String>>,
}

/// What a [`Leaf`] holds.
pub struct LeafV {
    pub key: Seq<char>,
    pub value: ValueV,
    pub depth: int,
    pub path: Seq<char>,
    pub odd_segments: Option<Seq<Seq<char>>>,
}

impl View for Leaf {
    type V = LeafV;

    open spec fn view(&self) -> LeafV {
        LeafV {
            key: self.key@,
            value: self.value@,
            depth: self.depth as int,
            path: self.path@,
            odd_segments: match self.odd_segments {
                Some(v) => Some(texts(v@)),
                None => None,
            },
        }
    }
}

impl LeafV {
    /// The real key segments.
    pub open spec fn segments(self) -> Seq<Seq<char>> {
        match self.odd_segments {
            Some(segments) => segments,
            None => split_of(self.key, '.'),
        }
    }
}

pub(crate) fn clone_texts(v: &Vec<String>) -> (out: Vec<String>)
    ensures
        texts(out@) == texts(v@),
{
    let mut out: Vec<String> = Vec::new();
    let mut i: usize = 0;
    while i < v.len()
        invariant
            i <= v.len(),
            out.len() == i,
            forall|j: int| 0 <= j < i ==> #[trigger] out@[j]@ == v@[j]@,
        decreases v.len() - i,
    {
        out.push(v[i].clone());
        i = i + 1;
    }
    assert(texts(out@) =~= texts(v@));
    out
}

impl Leaf {
    /// The real key segments.
    pub fn segments(&self) -> (out: Vec<String>)
        ensures
            texts(out@) == self@.segments(),
    {
        match &self.odd_segments {
            Some(segments) => clone_texts(segments),
            None => split(&self.key, '.'),
        }
    }
}

impl Clone for Leaf {
    fn clone(&self) -> (r: Leaf)
        ensures
            r@ == self@,
    {
        Leaf {
            key: self.key.clone(),
            value: self.value.clone(),
            depth: self.depth,
            path: self.path.clone(),
            odd_segments: match &self.odd_segments {
                Some(v) => Some(clone_texts(v)),
                None => None,
            },
        }
    }
}

/// What a list of leaves holds.
pub open spec fn leaves_model(v: Seq<Leaf>) -> Seq<LeafV> {
    Seq::new(v.len(), |i: int| v[i]@)
}

/// The keys of leaves.
pub open spec fn keys_of(v: Seq<LeafV>) -> Seq<Seq<char>> {
    Seq::new(v.len(), |i: int| v[i].key)
}

// ------------------------------------------------------------------ the levels

/// `parent` is the part of `key` before one of its dots.
pub open spec fn ancestor(parent: Seq<char>, key: Seq<char>) -> bool {
    parent.len() < key.len() && key[parent.len() as int] == '.' && key.take(parent.len() as int)
        == parent
}

/// The segment of `key` that follows its ancestor `parent`.
pub open spec fn segment_after(parent: Seq<char>, key: Seq<char>) -> Seq<char> {
    let rest = key.skip(parent.len() as int + 1);
    rest.take(position_of(rest, '.'))
}

/// The segments that follow `parent` in the first `n` keys, each once, in the
/// order in which they first occur.
pub open spec fn children_upto(keys: Seq<Seq<char>>, n: int, parent: Seq<char>) -> Seq<Seq<char>>
    decreases n,
{
    if n <= 0 {
        Seq::empty()
    } else {
        let before = children_upto(keys, n - 1, parent);
        let segment = segment_after(parent, keys[n - 1]);
        if ancestor(parent, keys[n - 1]) && !before.contains(segment) {
            before.push(segment)
        } else {
            before
        }
    }
}

/// The segments that follow `parent` in the keys.
pub open spec fn children_of(keys: Seq<Seq<char>>, parent: Seq<char>) -> Seq<Seq<char>> {
    children_upto(keys, keys.len() as int, parent)
}

/// Some key lies below `key`.
pub open spec fn interior_of(keys: Seq<Seq<char>>, key: Seq<char>) -> bool {
    exists|i: int| 0 <= i < keys.len() && ancestor(key, #[trigger] keys[i])
}

/// A level below `parent`.
pub open spec fn below(parent: Seq<char>, segment: Seq<char>) -> Seq<char> {
    parent + "."@ + segment
}

/// Every child of `key` is a leaf that names a plural form, and there is one.
pub open spec fn plural_node_of(keys: Seq<Seq<char>>, key: Seq<char>) -> bool {
    let children = children_of(keys, key);
    &&& children.len() > 0
    &&& forall|i: int|
        0 <= i < children.len() ==> plural_child(keys, key, #[trigger] children[i])
}

/// The child is a leaf, no more, and names a plural form.
pub open spec fn plural_child(keys: Seq<Seq<char>>, parent: Seq<char>, child: Seq<char>) -> bool {
    is_plural_suffix(child) && keys.contains(below(parent, child)) && !interior_of(
        keys,
        below(parent, child),
    )
}

/// `s` holds the plural nodes among the levels of the keys, sorted.
pub open spec fn lists_plural_nodes(s: Seq<Seq<char>>, keys: Seq<Seq<char>>) -> bool {
    &&& strictly_sorted(s)
    &&& forall|k: Seq<char>| #[trigger] plural_node_of(keys, k) <==> s.contains(k)
}

/// The plural nodes among the levels of the keys, sorted.
pub open spec fn plural_nodes_in(keys: Seq<Seq<char>>) -> Seq<Seq<char>> {
    choose|s: Seq<Seq<char>>| lists_plural_nodes(s, keys)
}

proof fn one_list_of_plural_nodes(s: Seq<Seq<char>>, keys: Seq<Seq<char>>)
    requires
        lists_plural_nodes(s, keys),
    ensures
        s == plural_nodes_in(keys),
{
    let t = plural_nodes_in(keys);
    assert forall|k: Seq<char>| #![trigger t.contains(k)] t.contains(k) <==> s.contains(k) by {
        assert(plural_node_of(keys, k) <==> s.contains(k));
        assert(plural_node_of(keys, k) <==> t.contains(k));
    }
    distinct_is_unique(t, s);
    distinct_is_unique(s, s);
}

pub(crate) proof fn children_mean_interior(keys: Seq<Seq<char>>, n: int, parent: Seq<char>)
    requires
        0 <= n <= keys.len(),
    ensures
        children_upto(keys, n, parent).len() > 0 <==> exists|i: int|
            0 <= i < n && ancestor(parent, #[trigger] keys[i]),
    decreases n,
{
    if n > 0 {
        children_mean_interior(keys, n - 1, parent);
        if ancestor(parent, keys[n - 1]) {
            let before = children_upto(keys, n - 1, parent);
            if before.contains(segment_after(parent, keys[n - 1])) {
                assert(before.len() > 0);
            }
        }
    }
}

// -------------------------------------------------------------------- the tree

/// The data of one locale: its leaves, and what lookups need.
pub struct LocaleTree {
    pub locale: String,
    pub leaves: Vec<Leaf>,
    /// Where each key stands in `leaves`.
    pub index: TextMap<usize>,
    /// Every key that is an interior node.
    pub interior: TextMap<()>,
    /// Immediate child segment names, in insertion order.
    pub child_names: TextMap<Vec<String>>,
    /// Keys whose children are all leaves with a plural suffix.
    pub plural_nodes: TextMap<()>,
    /// Every top-level key of each file read for this locale, by path.
    pub file_locales: TextMap<Vec<String>>,
}

impl LocaleTree {
    /// What the leaves hold.
    pub open spec fn data(&self) -> Seq<LeafV> {
        leaves_model(self.leaves@)
    }

    /// The keys of the leaves.
    pub open spec fn keys(&self) -> Seq<Seq<char>> {
        keys_of(self.data())
    }

    /// Each key stands once, where the index says.
    pub open spec fn indexed(&self) -> bool {
        &&& forall|i: int|
            0 <= i < self.leaves.len() ==> self.index@.contains_key(#[trigger] self.keys()[i])
                && self.index@[self.keys()[i]] == i
        &&& forall|k: Seq<char>| #[trigger]
            self.index@.contains_key(k) ==> self.index@[k] < self.leaves.len()
                && self.keys()[self.index@[k] as int] == k
    }

    /// The tree is complete: the lookups agree with the leaves.
    pub open spec fn wf(&self) -> bool {
        &&& self.indexed()
        &&& forall|k: Seq<char>| #[trigger]
            self.interior@.contains_key(k) <==> interior_of(self.keys(), k)
        &&& forall|k: Seq<char>| #[trigger]
            listed(self.child_names@, k) == children_of(self.keys(), k)
        &&& forall|k: Seq<char>| #[trigger]
            self.plural_nodes@.contains_key(k) <==> plural_node_of(self.keys(), k)
    }

    /// The leaf of `key`.
    pub open spec fn found(&self, key: Seq<char>) -> Option<LeafV> {
        if self.keys().contains(key) {
            Some(self.data()[self.keys().index_of(key)])
        } else {
            None
        }
    }

    proof fn place_of(&self, key: Seq<char>)
        requires
            self.indexed(),
        ensures
            self.keys().contains(key) <==> self.index@.contains_key(key),
            self.index@.contains_key(key) ==> self.keys().index_of(key) == self.index@[key],
    {
        let keys = self.keys();
        if self.index@.contains_key(key) {
            assert(keys[self.index@[key] as int] == key);
            let i = keys.index_of(key);
            assert(keys[i] == key);
        }
        if keys.contains(key) {
            let i = keys.index_of(key);
            assert(keys[i] == key);
        }
    }

    /// A tree without leaves.
    pub fn new(locale: &str) -> (tree: LocaleTree)
        ensures
            tree.locale@ == locale@,
            tree.data() == Seq::<LeafV>::empty(),
            tree.file_locales@ == Map::<Seq<char>, Vec<String>>::empty(),
            tree.indexed(),
            tree.wf(),
    {
        let tree = LocaleTree {
            locale: locale.to_owned(),
            leaves: Vec::new(),
            index: TextMap::new(),
            interior: TextMap::new(),
            child_names: TextMap::new(),
            plural_nodes: TextMap::new(),
            file_locales: TextMap::new(),
        };
        assert(tree.data() =~= Seq::<LeafV>::empty());
        assert(tree.keys() =~= Seq::<Seq<char>>::empty());
        tree
    }

    /// The leaf of `key`, where there is one.
    pub fn get(&self, key: &str) -> (r: Option<&Leaf>)
        requires
            self.indexed(),
        ensures
            match r {
                Some(leaf) => self.found(key@) == Some(leaf@),
                None => self.found(key@) is None,
            },
    {
        proof {
            self.place_of(key@);
        }
        match self.index.get(key) {
            Some(i) => Some(&self.leaves[*i]),
            None => None,
        }
    }

    /// Whether the key names a leaf or an interior node.
    pub fn has_key(&self, key: &str) -> (b: bool)
        requires
            self.wf(),
        ensures
            b == (self.keys().contains(key@) || interior_of(self.keys(), key@)),
    {
        proof {
            self.place_of(key@);
        }
        self.index.contains(key) || self.interior.contains(key)
    }

    /// Whether some key lies below `key`.
    pub fn is_interior(&self, key: &str) -> (b: bool)
        requires
            self.wf(),
        ensures
            b == interior_of(self.keys(), key@),
    {
        self.interior.contains(key)
    }

    /// The immediate child segment names of `key`.
    pub fn children(&self, key: &str) -> (out: Vec<String>)
        requires
            self.wf(),
        ensures
            texts(out@) == children_of(self.keys(), key@),
    {
        assert(listed(self.child_names@, key@) == children_of(self.keys(), key@));
        match self.child_names.get(key) {
            Some(v) => clone_texts(v),
            None => {
                let out: Vec<String> = Vec::new();
                assert(texts(out@) =~= Seq::<Seq<char>>::empty());
                out
            },
        }
    }

    /// Whether every child of `key` is a leaf that names a plural form.
    pub fn is_plural_node(&self, key: &str) -> (b: bool)
        requires
            self.wf(),
        ensures
            b == plural_node_of(self.keys(), key@),
    {
        self.plural_nodes.contains(key)
    }

    /// Every plural node, sorted.
    pub fn sorted_plural_nodes(&self) -> (out: Vec<String>)
        requires
            self.wf(),
        ensures
            texts(out@) == plural_nodes_in(self.keys()),
            lists_plural_nodes(texts(out@), self.keys()),
    {
        let n = self.plural_nodes.len();
        let ghost order = self.plural_nodes.order();
        let mut out: Vec<String> = Vec::new();
        let mut i: usize = 0;
        while i < n
            invariant
                i <= n == order.len(),
                order == self.plural_nodes.order(),
                out.len() == i,
                forall|j: int| 0 <= j < i ==> #[trigger] out@[j]@ == order[j],
            decreases n - i,
        {
            out.push(self.plural_nodes.key_at(i).clone());
            i = i + 1;
        }
        assert(texts(out@) =~= order);
        proof {
            assert forall|k: Seq<char>|
                #![trigger plural_node_of(self.keys(), k)]
                texts(out@).contains(k) <==> plural_node_of(self.keys(), k) by {
                assert(self.plural_nodes@.contains_key(k) <==> order.contains(k));
            }
            one_list_of_plural_nodes(texts(out@), self.keys());
        }
        out
    }

    /// Leaves sorted by key, for deterministic reports.
    pub fn sorted_keys(&self) -> (out: Vec<&Leaf>)
        requires
            self.indexed(),
        ensures
            borrowed_model(out@) == sorted_of(self.data()),
            sorts_leaves(sorted_of(self.data()), self.data()),
    {
        let n = self.index.len();
        let ghost order = self.index.order();
        let mut out: Vec<&Leaf> = Vec::new();
        let mut i: usize = 0;
        while i < n
            invariant
                i <= n == order.len(),
                order == self.index.order(),
                self.indexed(),
                self.index.ordered(),
                out.len() == i,
                forall|j: int|
                    0 <= j < i ==> (#[trigger] out@[j])@.key == order[j] && self.data().contains(
                        out@[j]@,
                    ),
            decreases n - i,
        {
            let at = *self.index.value_at(i);
            assert(self.keys()[at as int] == order[i as int]);
            assert(self.data()[at as int] == self.leaves@[at as int]@);
            out.push(&self.leaves[at]);
            i = i + 1;
        }
        proof {
            let sorted = borrowed_model(out@);
            assert(keys_of(sorted) =~= order);
            sorted_places(order, self.keys(), self.index@);
            assert(sorts_leaves(sorted, self.data()));
            sorted_form_is_unique(sorted, sorted_of(self.data()), self.data());
        }
        out
    }

    /// Records the levels above the leaves and the plural nodes among them.
    /// `recorded` holds every path whose parent already lists it, so a child is
    /// never looked for among its siblings.
    pub fn finish(&mut self)
        requires
            old(self).indexed(),
        ensures
            final(self).wf(),
            final(self).data() == old(self).data(),
            final(self).locale@ == old(self).locale@,
            final(self).file_locales == old(self).file_locales,
    {
        let ghost keys = self.keys();
        let mut recorded: TextMap<()> = TextMap::new();
        let mut interior: TextMap<()> = TextMap::new();
        let mut child_names: TextMap<Vec<String>> = TextMap::new();
        let mut n: usize = 0;
        while n < self.leaves.len()
            invariant
                n <= self.leaves.len(),
                keys == self.keys(),
                *self == *old(self),
                recorded_so_far(recorded@, interior@, child_names@, keys, n as int, 0),
            decreases self.leaves.len() - n,
        {
            let v = chars_of(&self.leaves[n].key);
            assert(v@ == keys[n as int]);
            let mut d: usize = 0;
            while d < v.len()
                invariant
                    d <= v.len(),
                    n < keys.len(),
                    v@ == keys[n as int],
                    recorded_so_far(recorded@, interior@, child_names@, keys, n as int, d as int),
                decreases v.len() - d,
            {
                if v[d] == '.' {
                    let next = position_from(&v, '.', d + 1);
                    let parent = text_between(&v, 0, d);
                    let path = text_between(&v, 0, next);
                    let segment = text_between(&v, d + 1, next);
                    let ghost p0 = parent@;
                    let ghost c0 = segment@;
                    proof {
                        reveal_strlit(".");
                        walk_dot(keys, n as int, d as int);
                        assert(p0 =~= keys[n as int].take(d as int));
                        let rest = v@.skip(d + 1);
                        position_is_first(rest, '.');
                        assert(c0 =~= rest.take(next - d - 1));
                        assert(c0 == segment_after(p0, keys[n as int]));
                        assert(path@ =~= below(p0, c0));
                        assert(!c0.contains('.')) by {
                            assert(forall|j: int| 0 <= j < c0.len() ==> c0[j] == rest[j]);
                        }
                    }
                    let ghost now = children_so_far(keys, n as int, d as int, p0);
                    if !recorded.contains(&path) {
                        let ghost r1 = recorded@;
                        recorded.insert(path, ());
                        interior.insert(parent.clone(), ());
                        child_names.push_to(parent, segment);
                        proof {
                            assert(children_so_far(keys, n as int, d + 1, p0) == now.push(c0));
                            assert forall|p: Seq<char>, c: Seq<char>| !c.contains('.') implies (
                            #[trigger] recorded@.contains_key(below(p, c)) <==> children_so_far(
                                keys,
                                n as int,
                                d + 1,
                                p,
                            ).contains(c)) by {
                                if below(p, c) == below(p0, c0) {
                                    path_splits_one_way(p, c, p0, c0);
                                    assert(now.push(c0)[now.len() as int] == c0);
                                } else {
                                    assert(recorded@.contains_key(below(p, c))
                                        == r1.contains_key(below(p, c)));
                                    if p == p0 {
                                        assert(c != c0);
                                        assert(now.push(c0).contains(c) <==> now.contains(c)) by {
                                            if now.contains(c) {
                                                let i = now.index_of(c);
                                                assert(now.push(c0)[i] == c);
                                            }
                                        }
                                    }
                                }
                            }
                        }
                    } else {
                        proof {
                            assert(now.contains(c0));
                            assert(children_so_far(keys, n as int, d + 1, p0) == now);
                            assert forall|p: Seq<char>| #[trigger]
                                children_so_far(keys, n as int, d + 1, p) == children_so_far(
                                    keys,
                                    n as int,
                                    d as int,
                                    p,
                                ) by {}
                        }
                    }
                } else {
                    proof {
                        walk_past(keys, n as int, d as int);
                    }
                }
                d = d + 1;
            }
            proof {
                walk_end(keys, n as int);
            }
            n = n + 1;
        }
        proof {
            assert forall|k: Seq<char>| #[trigger]
                interior@.contains_key(k) <==> interior_of(keys, k) by {
                children_mean_interior(keys, keys.len() as int, k);
                assert(children_so_far(keys, n as int, 0, k) == children_of(keys, k));
            }
            assert forall|k: Seq<char>| #[trigger] listed(child_names@, k) == children_of(
                keys,
                k,
            ) by {
                assert(children_so_far(keys, n as int, 0, k) == children_of(keys, k));
            }
            assert forall|k: Seq<char>| #[trigger] child_names@.contains_key(k) <==> children_of(
                keys,
                k,
            ).len() > 0 by {
                assert(children_so_far(keys, n as int, 0, k) == children_of(keys, k));
            }
        }
        self.interior = interior;
        self.child_names = child_names;
        let plural_nodes = self.find_plural_nodes();
        self.plural_nodes = plural_nodes;
    }

    /// The levels whose children are all leaves that name a plural form.
    fn find_plural_nodes(&self) -> (plural: TextMap<()>)
        requires
            self.indexed(),
            forall|k: Seq<char>| #[trigger]
                self.interior@.contains_key(k) <==> interior_of(self.keys(), k),
            forall|k: Seq<char>| #[trigger]
                listed(self.child_names@, k) == children_of(self.keys(), k),
            forall|k: Seq<char>| #[trigger]
                self.child_names@.contains_key(k) <==> children_of(self.keys(), k).len() > 0,
        ensures
            forall|k: Seq<char>| #[trigger]
                plural@.contains_key(k) <==> plural_node_of(self.keys(), k),
    {
        let ghost keys = self.keys();
        let mut plural: TextMap<()> = TextMap::new();
        let n = self.child_names.len();
        let ghost order = self.child_names.order();
        let mut i: usize = 0;
        while i < n
            invariant
                i <= n == order.len(),
                keys == self.keys(),
                order == self.child_names.order(),
                self.indexed(),
                forall|k: Seq<char>| #[trigger]
                    self.interior@.contains_key(k) <==> interior_of(self.keys(), k),
                forall|k: Seq<char>| #[trigger]
                    listed(self.child_names@, k) == children_of(self.keys(), k),
                forall|k: Seq<char>| #[trigger]
                    plural@.contains_key(k) <==> order.take(i as int).contains(k)
                        && plural_node_of(keys, k),
            decreases n - i,
        {
            let parent = self.child_names.key_at(i);
            let children = self.child_names.value_at(i);
            let ghost model = children_of(keys, parent@);
            assert(listed(self.child_names@, parent@) == model);
            let mut all = children.len() > 0;
            let mut c: usize = 0;
            while c < children.len() && all
                invariant
                    c <= children.len(),
                    model == texts(children@),
                    keys == self.keys(),
                    self.indexed(),
                    forall|k: Seq<char>| #[trigger]
                        self.interior@.contains_key(k) <==> interior_of(self.keys(), k),
                    all ==> children.len() > 0 && forall|j: int|
                        0 <= j < c ==> plural_child(keys, parent@, #[trigger] model[j]),
                    !all ==> children.len() == 0 || exists|j: int|
                        0 <= j < model.len() && !plural_child(keys, parent@, #[trigger] model[j]),
                decreases children.len() - c,
            {
                let child = &children[c];
                let full = concat(&concat(parent, "."), child);
                proof {
                    assert(model[c as int] == child@);
                    self.place_of(full@);
                }
                if !(plural_suffix(child) && self.index.contains(&full) && !self.interior.contains(
                    &full,
                )) {
                    assert(!plural_child(keys, parent@, model[c as int]));
                    all = false;
                }
                c = c + 1;
            }
            let ghost p1 = plural@;
            if all {
                plural.insert(parent.clone(), ());
            }
            proof {
                assert(all == plural_node_of(keys, parent@));
                let taken = order.take(i + 1);
                assert(taken =~= order.take(i as int).push(parent@));
                assert forall|k: Seq<char>| #[trigger] plural@.contains_key(k) <==> taken.contains(
                    k,
                ) && plural_node_of(keys, k) by {
                    if taken.contains(k) && k != parent@ {
                        let j = taken.index_of(k);
                        assert(order.take(i as int)[j] == k);
                    }
                    if order.take(i as int).contains(k) {
                        let j = order.take(i as int).index_of(k);
                        assert(taken[j] == k);
                    }
                    assert(taken[i as int] == parent@);
                    assert(p1.contains_key(k) ==> plural@.contains_key(k));
                }
            }
            i = i + 1;
        }
        proof {
            assert(order.take(i as int) =~= order);
            assert forall|k: Seq<char>| #[trigger] plural@.contains_key(k) <==> plural_node_of(
                keys,
                k,
            ) by {
                if plural_node_of(keys, k) {
                    assert(self.child_names@.contains_key(k));
                }
            }
        }
        plural
    }

    /// Adds a leaf. A later leaf replaces an earlier one of the same key.
    pub fn insert(&mut self, leaf: Leaf)
        requires
            old(self).indexed(),
        ensures
            final(self).indexed(),
            final(self).data() == with_leaf(old(self).data(), leaf@),
            final(self).locale@ == old(self).locale@,
            final(self).file_locales == old(self).file_locales,
    {
        proof {
            self.place_of(leaf.key@);
        }
        let ghost d0 = self.data();
        let ghost k0 = self.keys();
        let at: Option<usize> = match self.index.get(&leaf.key) {
            Some(i) => Some(*i),
            None => None,
        };
        match at {
            Some(i) => {
                let ghost new = leaf@;
                self.leaves.set(i, leaf);
                proof {
                    assert(k0[i as int] == new.key);
                    assert(self.data() =~= d0.update(i as int, new));
                    assert(self.keys() =~= k0);
                }
            },
            None => {
                let ghost new = leaf@;
                self.index.insert(leaf.key.clone(), self.leaves.len());
                self.leaves.push(leaf);
                proof {
                    assert(self.data() =~= d0.push(new));
                    assert(self.keys() =~= k0.push(new.key));
                    assert forall|i: int| 0 <= i < self.leaves.len() implies self.index@.contains_key(
                        #[trigger] self.keys()[i],
                    ) && self.index@[self.keys()[i]] == i by {
                        if i < k0.len() {
                            assert(k0[i] == self.keys()[i]);
                            assert(k0.contains(k0[i]));
                        }
                    }
                    assert forall|k: Seq<char>| #[trigger]
                        self.index@.contains_key(k) implies self.index@[k] < self.leaves.len()
                        && self.keys()[self.index@[k] as int] == k by {
                        if k != new.key {
                            assert(old(self).index@.contains_key(k));
                        }
                    }
                }
            },
        }
    }
}

/// A dotless last segment and what precedes it are determined by the path.
proof fn path_splits_one_way(p: Seq<char>, a: Seq<char>, q: Seq<char>, b: Seq<char>)
    requires
        below(p, a) == below(q, b),
        !a.contains('.'),
        !b.contains('.'),
    ensures
        p == q,
        a == b,
{
    reveal_strlit(".");
    let s = below(p, a);
    assert("."@.len() == 1);
    assert(s.len() == p.len() + 1 + a.len());
    assert(below(q, b).len() == q.len() + 1 + b.len());
    assert(s[p.len() as int] == '.');
    assert(below(q, b)[q.len() as int] == '.');
    if p.len() < q.len() {
        let i = q.len() - p.len() - 1;
        assert(s[q.len() as int] == a[i]);
        assert(a.contains('.'));
    }
    if q.len() < p.len() {
        let i = p.len() - q.len() - 1;
        assert(below(q, b)[p.len() as int] == b[i]);
        assert(b.contains('.'));
    }
    assert(p =~= s.take(p.len() as int));
    assert(q =~= below(q, b).take(q.len() as int));
    assert(a =~= s.skip(p.len() as int + 1));
    assert(b =~= below(q, b).skip(q.len() as int + 1));
}

/// While key `n` is walked and the dots before `d` are done: the children of
/// the levels that end before `d` count key `n`, those of the others do not.
spec fn children_so_far(keys: Seq<Seq<char>>, n: int, d: int, parent: Seq<char>) -> Seq<Seq<char>> {
    if parent.len() < d {
        children_upto(keys, n + 1, parent)
    } else {
        children_upto(keys, n, parent)
    }
}

/// The three maps hold what has been walked so far.
spec fn recorded_so_far(
    recorded: Map<Seq<char>, ()>,
    interior: Map<Seq<char>, ()>,
    children: Map<Seq<char>, Vec<String>>,
    keys: Seq<Seq<char>>,
    n: int,
    d: int,
) -> bool {
    &&& forall|p: Seq<char>, c: Seq<char>|
        !c.contains('.') ==> (#[trigger] recorded.contains_key(below(p, c)) <==> children_so_far(
            keys,
            n,
            d,
            p,
        ).contains(c))
    &&& forall|p: Seq<char>| #[trigger]
        interior.contains_key(p) <==> children_so_far(keys, n, d, p).len() > 0
    &&& forall|p: Seq<char>| #[trigger] listed(children, p) == children_so_far(keys, n, d, p)
    &&& forall|p: Seq<char>| #[trigger]
        children.contains_key(p) <==> children_so_far(keys, n, d, p).len() > 0
}

/// A character that is no dot changes no level.
proof fn walk_past(keys: Seq<Seq<char>>, n: int, d: int)
    requires
        0 <= n < keys.len(),
        0 <= d < keys[n].len(),
        keys[n][d] != '.',
    ensures
        forall|p: Seq<char>| #[trigger]
            children_so_far(keys, n, d + 1, p) == children_so_far(keys, n, d, p),
{
    assert forall|p: Seq<char>| #[trigger]
        children_so_far(keys, n, d + 1, p) == children_so_far(keys, n, d, p) by {
        assert(p.len() == d ==> !ancestor(p, keys[n]));
    }
}

/// The dot at `d` changes the level before it, and no other.
proof fn walk_dot(keys: Seq<Seq<char>>, n: int, d: int)
    requires
        0 <= n < keys.len(),
        0 <= d < keys[n].len(),
        keys[n][d] == '.',
    ensures
        forall|p: Seq<char>|
            p != keys[n].take(d) ==> #[trigger] children_so_far(keys, n, d + 1, p)
                == children_so_far(keys, n, d, p),
        ancestor(keys[n].take(d), keys[n]),
{
    let parent = keys[n].take(d);
    assert(parent.len() == d);
    assert(keys[n].take(parent.len() as int) =~= parent);
    assert forall|p: Seq<char>| p != parent implies #[trigger] children_so_far(keys, n, d + 1, p)
        == children_so_far(keys, n, d, p) by {
        if p.len() == d && ancestor(p, keys[n]) {
            assert(p == parent);
        }
    }
}

/// At the end of key `n` every level counts it.
proof fn walk_end(keys: Seq<Seq<char>>, n: int)
    requires
        0 <= n < keys.len(),
    ensures
        forall|p: Seq<char>| #[trigger]
            children_so_far(keys, n + 1, 0, p) == children_so_far(
                keys,
                n,
                keys[n].len() as int,
                p,
            ),
{
    assert forall|p: Seq<char>| #[trigger]
        children_so_far(keys, n + 1, 0, p) == children_so_far(keys, n, keys[n].len() as int, p) by {
        if p.len() >= keys[n].len() {
            assert(!ancestor(p, keys[n]));
        }
    }
}

impl Default for LocaleTree {
    fn default() -> (tree: LocaleTree)
        ensures
            tree.locale@ == ""@,
            tree.data() == Seq::<LeafV>::empty(),
            tree.wf(),
            tree.indexed(),
    {
        LocaleTree::new("")
    }
}

/// The leaves with one more: in the place of the leaf that has its key, or at
/// the end.
pub open spec fn with_leaf(data: Seq<LeafV>, leaf: LeafV) -> Seq<LeafV> {
    let keys = keys_of(data);
    if keys.contains(leaf.key) {
        data.update(keys.index_of(leaf.key), leaf)
    } else {
        data.push(leaf)
    }
}

/// A leaf that is put in is found under its key, and every other key still
/// stands for what it stood for.
pub proof fn a_leaf_put_in_is_found(data: Seq<LeafV>, leaf: LeafV, key: Seq<char>)
    requires
        keys_of(data).no_duplicates(),
    ensures
        keys_of(with_leaf(data, leaf)).no_duplicates(),
        with_leaf(data, leaf).contains(leaf),
        key != leaf.key ==> (keys_of(with_leaf(data, leaf)).contains(key) <==> keys_of(
            data,
        ).contains(key)),
        key != leaf.key && keys_of(data).contains(key) ==> with_leaf(data, leaf)[keys_of(
            with_leaf(data, leaf),
        ).index_of(key)] == data[keys_of(data).index_of(key)],
{
    let keys = keys_of(data);
    let new = with_leaf(data, leaf);
    let names = keys_of(new);
    if keys.contains(leaf.key) {
        let at = keys.index_of(leaf.key);
        assert(names =~= keys);
        assert(new[at] == leaf);
    } else {
        assert(names =~= keys.push(leaf.key));
        assert(new[data.len() as int] == leaf);
        assert forall|i: int, j: int|
            0 <= i < names.len() && 0 <= j < names.len() && i != j implies names[i]
            != names[j] by {
            if i == keys.len() {
                assert(keys.contains(keys[j]));
            }
            if j == keys.len() {
                assert(keys.contains(keys[i]));
            }
        }
    }
    if key != leaf.key {
        if keys.contains(key) {
            let i = keys.index_of(key);
            assert(names[i] == key);
            assert(names[names.index_of(key)] == key);
            assert(names.index_of(key) == i);
        }
        if names.contains(key) {
            let j = names.index_of(key);
            assert(keys[j] == key);
        }
    }
}

/// What a list of borrowed leaves holds.
pub open spec fn borrowed_model(v: Seq<&Leaf>) -> Seq<LeafV> {
    Seq::new(v.len(), |i: int| v[i]@)
}

/// `sorted` holds the leaves of `data` in the order of their keys.
pub open spec fn sorts_leaves(sorted: Seq<LeafV>, data: Seq<LeafV>) -> bool {
    &&& sorted.len() == data.len()
    &&& strictly_sorted(keys_of(sorted))
    &&& forall|i: int| 0 <= i < sorted.len() ==> data.contains(#[trigger] sorted[i])
}

/// The leaves in the order of their keys.
pub open spec fn sorted_of(data: Seq<LeafV>) -> Seq<LeafV> {
    choose|sorted: Seq<LeafV>| sorts_leaves(sorted, data)
}

proof fn sorted_keys_are_all(sorted: Seq<LeafV>, data: Seq<LeafV>)
    requires
        sorts_leaves(sorted, data),
    ensures
        keys_of(sorted).to_set() == keys_of(data).to_set(),
        keys_of(data).no_duplicates(),
{
    let a = keys_of(sorted);
    let b = keys_of(data);
    assert(a.no_duplicates()) by {
        assert forall|i: int, j: int| 0 <= i < j < a.len() implies a[i] != a[j] by {
            text_lt_irreflexive(a[i]);
            assert(text_lt(a[i], a[j]));
        }
    }
    a.unique_seq_to_set();
    assert forall|k: Seq<char>| a.to_set().contains(k) implies b.to_set().contains(k) by {
        let i = a.index_of(k);
        assert(sorted[i].key == k);
        assert(data.contains(sorted[i]));
        let j = data.index_of(sorted[i]);
        assert(b[j] == k);
    }
    vstd::seq_lib::seq_to_set_is_finite(b);
    vstd::set_lib::lemma_len_subset(a.to_set(), b.to_set());
    b.lemma_cardinality_of_set();
    vstd::set_lib::lemma_subset_equality(a.to_set(), b.to_set());
    b.lemma_no_dup_set_cardinality();
}

proof fn sorted_form_is_unique(s: Seq<LeafV>, t: Seq<LeafV>, data: Seq<LeafV>)
    requires
        sorts_leaves(s, data),
        sorts_leaves(t, data),
    ensures
        s == t,
{
    let a = keys_of(s);
    let b = keys_of(t);
    sorted_keys_are_all(s, data);
    sorted_keys_are_all(t, data);
    assert forall|i: int| 0 <= i < b.len() implies a.contains(#[trigger] b[i]) by {
        assert(b.to_set().contains(b[i]));
        assert(a.to_set().contains(b[i]));
    }
    same_sorted_lists(a, b);
    assert forall|i: int| 0 <= i < s.len() implies s[i] == t[i] by {
        assert(data.contains(s[i]) && data.contains(t[i]));
        let x = data.index_of(s[i]);
        let y = data.index_of(t[i]);
        assert(a[i] == b[i]);
        assert(keys_of(data)[x] == a[i]);
        assert(keys_of(data)[y] == b[i]);
    }
    assert(s =~= t);
}

/// Leaves with different keys can be put in the order of their keys.
pub proof fn leaves_can_be_sorted(data: Seq<LeafV>)
    requires
        keys_of(data).no_duplicates(),
    ensures
        sorts_leaves(sorted_of(data), data),
{
    let keys = keys_of(data);
    let leq = |a: Seq<char>, b: Seq<char>| !text_lt(b, a);
    assert(vstd::relations::total_ordering(leq)) by {
        assert forall|a: Seq<char>| #[trigger] leq(a, a) by {
            text_lt_irreflexive(a);
        }
        assert forall|a: Seq<char>, b: Seq<char>| #[trigger] leq(a, b) && #[trigger] leq(
            b,
            a,
        ) implies a == b by {
            text_lt_total(a, b);
        }
        assert forall|a: Seq<char>, b: Seq<char>, c: Seq<char>| #[trigger] leq(a, b) && #[trigger] leq(
            b,
            c,
        ) implies leq(a, c) by {
            text_lt_total(a, b);
            text_lt_total(b, c);
            if text_lt(c, a) {
                if text_lt(a, b) {
                    text_lt_transitive(c, a, b);
                }
            }
        }
        assert forall|a: Seq<char>, b: Seq<char>| #[trigger] leq(a, b) || #[trigger] leq(b, a) by {
            if text_lt(b, a) && text_lt(a, b) {
                text_lt_transitive(a, b, a);
                text_lt_irreflexive(a);
            }
        }
    }
    keys.lemma_sort_by_ensures(leq);
    let order = keys.sort_by(leq);
    let sorted = Seq::new(order.len(), |i: int| data[keys.index_of(order[i])]);
    broadcast use vstd::seq_lib::group_to_multiset_ensures;

    assert(order.len() == keys.len()) by {
        assert(order.to_multiset().len() == keys.to_multiset().len());
    }
    keys.lemma_multiset_has_no_duplicates();
    order.lemma_multiset_has_no_duplicates_conv();
    assert(keys_of(sorted) =~= order) by {
        assert forall|i: int| 0 <= i < order.len() implies keys_of(sorted)[i] == order[i] by {
            assert(order.contains(order[i]));
            assert(keys.contains(order[i]));
            let j = keys.index_of(order[i]);
            assert(keys[j] == order[i]);
        }
    }
    assert(strictly_sorted(order)) by {
        assert forall|i: int, j: int| 0 <= i < j < order.len() implies text_lt(
            #[trigger] order[i],
            #[trigger] order[j],
        ) by {
            assert(leq(order[i], order[j]));
            assert(order[i] != order[j]);
            text_lt_total(order[i], order[j]);
        }
    }
    assert forall|i: int| 0 <= i < sorted.len() implies data.contains(#[trigger] sorted[i]) by {
        assert(order.contains(order[i]));
        assert(keys.contains(order[i]));
    }
    assert(sorts_leaves(sorted, data));
}

/// The leaves of a tree in order are all of its leaves.
pub proof fn a_tree_is_sorted_whole(tree: LocaleTree)
    requires
        tree.wf(),
    ensures
        sorts_leaves(sorted_of(tree.data()), tree.data()),
        keys_of(sorted_of(tree.data())).to_set() == tree.keys().to_set(),
{
    assert(tree.keys().no_duplicates()) by {
        assert forall|i: int, j: int|
            0 <= i < tree.keys().len() && 0 <= j < tree.keys().len() && i
                != j implies tree.keys()[i] != tree.keys()[j] by {
            assert(tree.index@[tree.keys()[i]] == i);
            assert(tree.index@[tree.keys()[j]] == j);
        }
    }
    leaves_can_be_sorted(tree.data());
    sorted_keys_are_all(sorted_of(tree.data()), tree.data());
}

/// A sorted list of the keys that an index places is as long as the keys.
proof fn sorted_places(order: Seq<Seq<char>>, keys: Seq<Seq<char>>, index: Map<Seq<char>, usize>)
    requires
        strictly_sorted(order),
        forall|k: Seq<char>| #[trigger] index.contains_key(k) <==> order.contains(k),
        forall|i: int|
            0 <= i < keys.len() ==> index.contains_key(#[trigger] keys[i]) && index[keys[i]] == i,
        forall|k: Seq<char>| #[trigger]
            index.contains_key(k) ==> index[k] < keys.len() && keys[index[k] as int] == k,
    ensures
        order.len() == keys.len(),
{
    assert(order.no_duplicates()) by {
        assert forall|i: int, j: int| 0 <= i < j < order.len() implies order[i] != order[j] by {
            text_lt_irreflexive(order[i]);
            assert(text_lt(order[i], order[j]));
        }
    }
    assert(keys.no_duplicates()) by {
        assert forall|i: int, j: int| 0 <= i < j < keys.len() implies keys[i] != keys[j] by {
            assert(index[keys[i]] == i);
            assert(index[keys[j]] == j);
        }
    }
    assert(order.to_set() =~= keys.to_set()) by {
        assert forall|k: Seq<char>| order.to_set().contains(k) <==> keys.to_set().contains(k) by {
            if order.contains(k) {
                assert(index.contains_key(k));
                assert(keys[index[k] as int] == k);
            }
            if keys.contains(k) {
                let i = keys.index_of(k);
                assert(keys[i] == k);
                assert(index.contains_key(k));
            }
        }
    }
    order.unique_seq_to_set();
    keys.unique_seq_to_set();
}

// -------------------------------------------------------------- from YAML nodes

/// A value such as `:other.key`, which Ruby reads as a Symbol.
pub open spec fn symbol_reference(s: Seq<char>) -> bool {
    &&& s.len() > 1
    &&& s[0] == ':'
    &&& forall|i: int|
        1 <= i < s.len() ==> is_alphanumeric_of(#[trigger] s[i]) || s[i] == '_' || s[i] == '.'
}

/// Whether a plain value is a Symbol: a colon and then letters, digits, `_`
/// and `.` only.
pub fn is_symbol_reference(value: &str) -> (b: bool)
    ensures
        b == symbol_reference(value@),
{
    let v = chars_of(value);
    if v.len() < 2 || v[0] != ':' {
        return false;
    }
    let mut i: usize = 1;
    while i < v.len()
        invariant
            1 <= i <= v.len(),
            v@ == value@,
            forall|j: int|
                1 <= j < i ==> is_alphanumeric_of(#[trigger] v@[j]) || v@[j] == '_' || v@[j]
                    == '.',
        decreases v.len() - i,
    {
        if !(alphanumeric(v[i]) || v[i] == '_' || v[i] == '.') {
            assert(!(is_alphanumeric_of(value@[i as int]) || value@[i as int] == '_'
                || value@[i as int] == '.'));
            return false;
        }
        i = i + 1;
    }
    true
}

/// `path:line: ` before a message.
pub open spec fn located(path: Seq<char>, line: int, message: Seq<char>) -> Seq<char> {
    path + ":"@ + decimal(line as nat) + ": "@ + message
}

pub(crate) fn at_line(path: &str, line: usize, message: &str) -> (out: String)
    ensures
        out@ == located(path@, line as int, message@),
{
    let mut out = path.to_owned();
    out.append(":");
    out.append(&decimal_text(line as u64));
    out.append(": ");
    out.append(message);
    out
}

/// The message for a value that is a reference.
pub open spec fn reference_message(value: Seq<char>) -> Seq<char> {
    "`"@ + value
        + "` is a reference value. Psych reads it as a Ruby Symbol, and the reference subsystem is out of scope. Write the value out, or quote it if a literal string was meant."@
}

/// The value that a scalar stands for, or the message that refuses it.
pub open spec fn scalar_value(
    value: Seq<char>,
    plain: bool,
    line: int,
    path: Seq<char>,
    in_sequence: bool,
) -> Result<ValueV, Seq<char>> {
    if !plain {
        Ok(ValueV::Str(value))
    } else if symbol_reference(value) {
        if in_sequence {
            Ok(ValueV::Plain(value))
        } else {
            Err(located(path, line, reference_message(value)))
        }
    } else {
        Ok(
            match resolved(value) {
                Resolved::Null => ValueV::Nil,
                Resolved::Bool(b) => ValueV::Bool(b),
                Resolved::Number => ValueV::Plain(value),
                Resolved::Timestamp => ValueV::Plain(value),
                Resolved::Str => ValueV::Str(value),
            },
        )
    }
}

/// The value that a node stands for, or the first message that refuses it.
/// A Symbol inside a sequence is data, not a reference.
pub open spec fn value_of(node: NodeV, path: Seq<char>, in_sequence: bool) -> Result<
    ValueV,
    Seq<char>,
>
    decreases node, 0nat,
{
    match node {
        NodeV::Scalar { value, plain, line } => scalar_value(
            value,
            plain,
            line,
            path,
            in_sequence,
        ),
        NodeV::List { items, .. } => match items_upto(items, items.len(), path) {
            Ok(v) => Ok(ValueV::List(v)),
            Err(e) => Err(e),
        },
        NodeV::Mapping { entries, .. } => match entries_upto(
            entries,
            entries.len(),
            path,
            in_sequence,
        ) {
            Ok(v) => Ok(ValueV::Table(v)),
            Err(e) => Err(e),
        },
    }
}

/// The values of the first `n` items.
pub open spec fn items_upto(items: Seq<NodeV>, n: nat, path: Seq<char>) -> Result<
    Seq<ValueV>,
    Seq<char>,
>
    decreases items, n,
{
    if n == 0 || n > items.len() {
        Ok(Seq::empty())
    } else {
        match items_upto(items, (n - 1) as nat, path) {
            Err(e) => Err(e),
            Ok(before) => match value_of(items[n - 1], path, true) {
                Ok(v) => Ok(before.push(v)),
                Err(e) => Err(e),
            },
        }
    }
}

/// The named values of the first `n` entries.
pub open spec fn entries_upto(
    entries: Seq<(NodeV, NodeV)>,
    n: nat,
    path: Seq<char>,
    in_sequence: bool,
) -> Result<Seq<(Seq<char>, ValueV)>, Seq<char>>
    decreases entries, n,
{
    if n == 0 || n > entries.len() {
        Ok(Seq::empty())
    } else {
        match entries_upto(entries, (n - 1) as nat, path, in_sequence) {
            Err(e) => Err(e),
            Ok(before) => match entries[n - 1].0.text() {
                None => Err(located(path, entries[n - 1].0.line(), "non-scalar YAML key"@)),
                Some(name) => match value_of(entries[n - 1].1, path, in_sequence) {
                    Ok(v) => Ok(before.push((name, v))),
                    Err(e) => Err(e),
                },
            },
        }
    }
}

proof fn items_error_stays(items: Seq<NodeV>, n: nat, m: nat, path: Seq<char>)
    requires
        n <= m <= items.len(),
        items_upto(items, n, path) is Err,
    ensures
        items_upto(items, m, path) == items_upto(items, n, path),
    decreases m,
{
    if n < m {
        items_error_stays(items, n, (m - 1) as nat, path);
    }
}

proof fn entries_error_stays(
    entries: Seq<(NodeV, NodeV)>,
    n: nat,
    m: nat,
    path: Seq<char>,
    in_sequence: bool,
)
    requires
        n <= m <= entries.len(),
        entries_upto(entries, n, path, in_sequence) is Err,
    ensures
        entries_upto(entries, m, path, in_sequence) == entries_upto(entries, n, path, in_sequence),
    decreases m,
{
    if n < m {
        entries_error_stays(entries, n, (m - 1) as nat, path, in_sequence);
    }
}

/// A result and what its parts hold.
pub open spec fn result_is<T: View>(r: Result<T, String>, want: Result<T::V, Seq<char>>) -> bool {
    match r {
        Ok(v) => want == Ok::<T::V, Seq<char>>(v@),
        Err(e) => want == Err::<T::V, Seq<char>>(e@),
    }
}

/// The value that a node stands for. `in_sequence` marks a node inside a YAML
/// sequence.
#[verifier::loop_isolation(false)]
pub fn to_value(node: &Node, path: &str, in_sequence: bool) -> (r: Result<Value, String>)
    ensures
        result_is(r, value_of(node@, path@, in_sequence)),
    decreases node,
{
    match node {
        Node::List { items, .. } => {
            let ghost model = node@->items;
            let mut out: Vec<Value> = Vec::new();
            let mut i: usize = 0;
            assert(values_model(out@) =~= Seq::empty());
            while i < items.len()
                invariant
                    i <= items.len(),
                    model == nodes_model(items@),
                    items_upto(model, i as nat, path@) == Ok::<Seq<ValueV>, Seq<char>>(
                        values_model(out@),
                    ),
                decreases items.len() - i,
            {
                assert(decreases_to!(*items => items@[i as int]));
                let ghost before = values_model(out@);
                match to_value(&items[i], path, true) {
                    Ok(v) => {
                        out.push(v);
                        assert(values_model(out@) =~= before.push(v@));
                    },
                    Err(e) => {
                        proof {
                            items_error_stays(model, (i + 1) as nat, model.len(), path@);
                        }
                        return Err(e);
                    },
                }
                i = i + 1;
            }
            let v = Value::List(out);
            assert(v@->List_0 =~= values_model(out@));
            Ok(v)
        },
        Node::Mapping { entries, .. } => {
            let ghost model = node@->entries;
            let mut out: Vec<(String, Value)> = Vec::new();
            let mut i: usize = 0;
            assert(table_model(out@) =~= Seq::empty());
            while i < entries.len()
                invariant
                    i <= entries.len(),
                    model == entries_model(entries@),
                    entries_upto(model, i as nat, path@, in_sequence) == Ok::<
                        Seq<(Seq<char>, ValueV)>,
                        Seq<char>,
                    >(table_model(out@)),
                decreases entries.len() - i,
            {
                assert(decreases_to!(*entries => entries@[i as int]));
                let ghost before = table_model(out@);
                let entry = &entries[i];
                match entry.0.as_str() {
                    None => {
                        proof {
                            entries_error_stays(
                                model,
                                (i + 1) as nat,
                                model.len(),
                                path@,
                                in_sequence,
                            );
                        }
                        return Err(at_line(path, entry.0.line(), "non-scalar YAML key"));
                    },
                    Some(name) => match to_value(&entry.1, path, in_sequence) {
                        Ok(v) => {
                            out.push((name.to_owned(), v));
                            assert(table_model(out@) =~= before.push((name@, v@)));
                        },
                        Err(e) => {
                            proof {
                                entries_error_stays(
                                    model,
                                    (i + 1) as nat,
                                    model.len(),
                                    path@,
                                    in_sequence,
                                );
                            }
                            return Err(e);
                        },
                    },
                }
                i = i + 1;
            }
            let v = Value::Table(out);
            assert(v@->Table_0 =~= table_model(out@));
            Ok(v)
        },
        Node::Scalar { value, plain, line } => {
            if !*plain {
                return Ok(Value::Str(value.clone()));
            }
            if is_symbol_reference(value) {
                if in_sequence {
                    return Ok(Value::Plain(value.clone()));
                }
                let mut message = "`".to_owned();
                message.append(value);
                message.append(
                    "` is a reference value. Psych reads it as a Ruby Symbol, and the reference subsystem is out of scope. Write the value out, or quote it if a literal string was meant.",
                );
                return Err(at_line(path, *line, &message));
            }
            Ok(
                match resolve_plain(value) {
                    Resolved::Null => Value::Nil,
                    Resolved::Bool(b) => Value::Bool(b),
                    Resolved::Number => Value::Plain(value.clone()),
                    Resolved::Timestamp => Value::Plain(value.clone()),
                    Resolved::Str => Value::Str(value.clone()),
                },
            )
        },
    }
}

/// The leaves and the warnings gathered so far.
pub struct Gathered {
    pub data: Seq<LeafV>,
    pub warnings: Seq<Seq<char>>,
}

/// The warning about a nil key below `prefix`.
pub open spec fn nil_key_message(prefix: Seq<Seq<char>>) -> Seq<char> {
    "skipping a nil key under `"@ + join_of(prefix, "."@)
        + "`. The unquoted YAML keys null, Null, NULL and ~ all produce a nil key, which i18n does not support."@
}

/// The leaf at `prefix`.
pub open spec fn leaf_at(prefix: Seq<Seq<char>>, value: ValueV, path: Seq<char>) -> LeafV {
    LeafV {
        key: join_of(prefix, "."@),
        value,
        depth: if prefix.len() <= 65535 {
            prefix.len() as int
        } else {
            65535
        },
        path,
        odd_segments: if exists|i: int|
            0 <= i < prefix.len() && (#[trigger] prefix[i]).contains('.') {
            Some(prefix)
        } else {
            None
        },
    }
}

/// What the node at `prefix` adds: a leaf, or all that its entries add.
/// A nil key is skipped with a warning; a key that is no scalar is refused.
pub open spec fn flattened(
    node: NodeV,
    prefix: Seq<Seq<char>>,
    path: Seq<char>,
    before: Gathered,
) -> Result<Gathered, Seq<char>>
    decreases node, 0nat,
{
    match node {
        NodeV::Mapping { entries, .. } => flattened_upto(
            entries,
            entries.len(),
            prefix,
            path,
            before,
        ),
        _ => if prefix.len() == 0 {
            Ok(before)
        } else {
            match value_of(node, path, false) {
                Err(e) => Err(e),
                Ok(v) => Ok(
                    Gathered { data: with_leaf(before.data, leaf_at(prefix, v, path)), ..before },
                ),
            }
        },
    }
}

/// What the first `n` entries below `prefix` add.
pub open spec fn flattened_upto(
    entries: Seq<(NodeV, NodeV)>,
    n: nat,
    prefix: Seq<Seq<char>>,
    path: Seq<char>,
    before: Gathered,
) -> Result<Gathered, Seq<char>>
    decreases entries, n,
{
    if n == 0 || n > entries.len() {
        Ok(before)
    } else {
        match flattened_upto(entries, (n - 1) as nat, prefix, path, before) {
            Err(e) => Err(e),
            Ok(now) => {
                let key = entries[n - 1].0;
                if null_scalar(key) {
                    Ok(
                        Gathered {
                            warnings: now.warnings.push(
                                located(path, key.line(), nil_key_message(prefix)),
                            ),
                            ..now
                        },
                    )
                } else {
                    match key.text() {
                        None => Err(located(path, key.line(), "non-scalar YAML key"@)),
                        Some(name) => flattened(entries[n - 1].1, prefix.push(name), path, now),
                    }
                }
            },
        }
    }
}

proof fn flatten_error_stays(
    entries: Seq<(NodeV, NodeV)>,
    n: nat,
    m: nat,
    prefix: Seq<Seq<char>>,
    path: Seq<char>,
    before: Gathered,
)
    requires
        n <= m <= entries.len(),
        flattened_upto(entries, n, prefix, path, before) is Err,
    ensures
        flattened_upto(entries, m, prefix, path, before) == flattened_upto(
            entries,
            n,
            prefix,
            path,
            before,
        ),
    decreases m,
{
    if n < m {
        flatten_error_stays(entries, n, (m - 1) as nat, prefix, path, before);
    }
}

/// What a tree and a list of warnings have gathered.
pub open spec fn gathered(tree: &LocaleTree, warnings: &Vec<String>) -> Gathered {
    Gathered { data: tree.data(), warnings: texts(warnings@) }
}

fn any_dotted(prefix: &Vec<String>) -> (b: bool)
    ensures
        b == exists|i: int|
            0 <= i < prefix.len() && (#[trigger] texts(prefix@)[i]).contains('.'),
{
    let mut i: usize = 0;
    while i < prefix.len()
        invariant
            i <= prefix.len(),
            forall|j: int| 0 <= j < i ==> !(#[trigger] texts(prefix@)[j]).contains('.'),
        decreases prefix.len() - i,
    {
        if has_char(&prefix[i], '.') {
            assert(texts(prefix@)[i as int].contains('.'));
            return true;
        }
        i = i + 1;
    }
    false
}

/// Adds the leaves of `node`, which stands at `prefix`, to the tree.
#[verifier::loop_isolation(false)]
fn flatten(
    node: &Node,
    prefix: &mut Vec<String>,
    path: &str,
    out: &mut LocaleTree,
    warnings: &mut Vec<String>,
) -> (r: Result<(), String>)
    requires
        old(out).indexed(),
    ensures
        match r {
            Ok(_) => {
                &&& texts(final(prefix)@) == texts(old(prefix)@)
                &&& flattened(node@, texts(old(prefix)@), path@, gathered(old(out), old(warnings)))
                    == Ok::<Gathered, Seq<char>>(gathered(final(out), final(warnings)))
            },
            Err(e) => flattened(
                node@,
                texts(old(prefix)@),
                path@,
                gathered(old(out), old(warnings)),
            ) == Err::<Gathered, Seq<char>>(e@),
        },
        final(out).indexed(),
        final(out).locale@ == old(out).locale@,
        final(out).file_locales == old(out).file_locales,
    decreases node,
{
    let ghost at = texts(prefix@);
    let ghost first = gathered(out, warnings);
    match node {
        Node::Mapping { entries, .. } => {
            let ghost model = node@->entries;
            let mut i: usize = 0;
            while i < entries.len()
                invariant
                    i <= entries.len(),
                    model == entries_model(entries@),
                    texts(prefix@) == at,
                    out.indexed(),
                    out.locale@ == old(out).locale@,
                    out.file_locales == old(out).file_locales,
                    flattened_upto(model, i as nat, at, path@, first) == Ok::<Gathered, Seq<char>>(
                        gathered(out, warnings),
                    ),
                decreases entries.len() - i,
            {
                assert(decreases_to!(*entries => entries@[i as int]));
                let entry = &entries[i];
                let key = &entry.0;
                if is_null_scalar(key) {
                    let mut message = "skipping a nil key under `".to_owned();
                    message.append(&join(prefix, "."));
                    message.append(
                        "`. The unquoted YAML keys null, Null, NULL and ~ all produce a nil key, which i18n does not support.",
                    );
                    push_text(warnings, at_line(path, key.line(), &message));
                } else {
                    match key.as_str() {
                        None => {
                            proof {
                                flatten_error_stays(
                                    model,
                                    (i + 1) as nat,
                                    model.len(),
                                    at,
                                    path@,
                                    first,
                                );
                            }
                            return Err(at_line(path, key.line(), "non-scalar YAML key"));
                        },
                        Some(name) => {
                            push_text(prefix, name.to_owned());
                            let r = flatten(&entry.1, prefix, path, out, warnings);
                            match r {
                                Ok(_) => {
                                    let ghost deep = texts(prefix@);
                                    assert(prefix.len() == deep.len());
                                    prefix.pop();
                                    assert(texts(prefix@) =~= deep.drop_last());
                                    assert(deep.drop_last() =~= at);
                                },
                                Err(e) => {
                                    proof {
                                        flatten_error_stays(
                                            model,
                                            (i + 1) as nat,
                                            model.len(),
                                            at,
                                            path@,
                                            first,
                                        );
                                    }
                                    return Err(e);
                                },
                            }
                        },
                    }
                }
                i = i + 1;
            }
            Ok(())
        },
        _ => {
            assert(at.len() == prefix.len());
            if prefix.len() == 0 {
                return Ok(());
            }
            let value = match to_value(node, path, false) {
                Ok(v) => v,
                Err(e) => {
                    return Err(e);
                },
            };
            let depth: u16 = if prefix.len() <= 65535 {
                prefix.len() as u16
            } else {
                65535
            };
            let odd_segments = if any_dotted(prefix) {
                Some(clone_texts(prefix))
            } else {
                None
            };
            let leaf = Leaf {
                key: join(prefix, "."),
                value,
                depth,
                path: path.to_owned(),
                odd_segments,
            };
            assert(leaf@ == leaf_at(at, value@, path@));
            out.insert(leaf);
            Ok(())
        },
    }
}

// ------------------------------------------------------------------ one locale

/// A file that a `data.read` or `data.external` pattern reaches: its path, and
/// the parsed document, or the reason why there is none.
pub struct SourceFile {
    pub path: String,
    pub root: Result<Option<Node>, String>,
}

/// What a [`SourceFile`] holds.
pub struct SourceFileV {
    pub path: Seq<char>,
    pub root: Result<Option<NodeV>, Seq<char>>,
}

impl View for SourceFile {
    type V = SourceFileV;

    open spec fn view(&self) -> SourceFileV {
        SourceFileV {
            path: self.path@,
            root: match self.root {
                Ok(Some(node)) => Ok(Some(node@)),
                Ok(None) => Ok(None),
                Err(e) => Err(e@),
            },
        }
    }
}

/// What a list of files holds.
pub open spec fn files_model(v: Seq<SourceFile>) -> Seq<SourceFileV> {
    Seq::new(v.len(), |i: int| v[i]@)
}

/// What reading files gathers for one locale.
pub struct LocaleV {
    pub found: Gathered,
    pub file_locales: Map<Seq<char>, Seq<Seq<char>>>,
}

/// The scalar keys among the first `n` entries.
pub open spec fn scalar_keys(entries: Seq<(NodeV, NodeV)>, n: nat) -> Seq<Seq<char>>
    decreases n,
{
    if n == 0 || n > entries.len() {
        Seq::empty()
    } else {
        match entries[n - 1].0.text() {
            Some(name) => scalar_keys(entries, (n - 1) as nat).push(name),
            None => scalar_keys(entries, (n - 1) as nat),
        }
    }
}

/// What the entries of the locale among the first `n` add.
pub open spec fn locale_entries(
    locale: Seq<char>,
    entries: Seq<(NodeV, NodeV)>,
    n: nat,
    path: Seq<char>,
    before: Gathered,
) -> Result<Gathered, Seq<char>>
    decreases n,
{
    if n == 0 || n > entries.len() {
        Ok(before)
    } else {
        match locale_entries(locale, entries, (n - 1) as nat, path, before) {
            Err(e) => Err(e),
            Ok(now) => if entries[n - 1].0.text() == Some(locale) {
                flattened(entries[n - 1].1, Seq::empty(), path, now)
            } else {
                Ok(now)
            },
        }
    }
}

/// What one file adds to the locale: the entries that its top level holds for
/// it. A document that is no mapping is refused.
pub open spec fn file_read(locale: Seq<char>, file: SourceFileV, before: LocaleV) -> Result<
    LocaleV,
    Seq<char>,
> {
    match file.root {
        Err(e) => Err(e),
        Ok(None) => Ok(before),
        Ok(Some(node)) => match node.entries() {
            None => Err(file.path + ": expected a mapping at the top level"@),
            Some(entries) => match locale_entries(
                locale,
                entries,
                entries.len(),
                file.path,
                before.found,
            ) {
                Err(e) => Err(e),
                Ok(found) => Ok(
                    LocaleV {
                        found,
                        file_locales: before.file_locales.insert(
                            path_key(file.path),
                            scalar_keys(entries, entries.len()),
                        ),
                    },
                ),
            },
        },
    }
}

/// An earlier file of the list has the same path.
pub open spec fn seen_before(files: Seq<SourceFileV>, n: int) -> bool {
    exists|j: int| 0 <= j < n && same_path((#[trigger] files[j]).path, files[n].path)
}

/// What the first `n` files add to the locale; a file that the list holds
/// twice is read once.
pub open spec fn files_read(locale: Seq<char>, files: Seq<SourceFileV>, n: nat) -> Result<
    LocaleV,
    Seq<char>,
>
    decreases n,
{
    if n == 0 || n > files.len() {
        Ok(
            LocaleV {
                found: Gathered { data: Seq::empty(), warnings: Seq::empty() },
                file_locales: Map::empty(),
            },
        )
    } else {
        match files_read(locale, files, (n - 1) as nat) {
            Err(e) => Err(e),
            Ok(now) => if seen_before(files, n - 1) {
                Ok(now)
            } else {
                file_read(locale, files[n - 1], now)
            },
        }
    }
}

/// What all the files add to the locale.
pub open spec fn locale_read(locale: Seq<char>, files: Seq<SourceFileV>) -> Result<
    LocaleV,
    Seq<char>,
> {
    files_read(locale, files, files.len())
}

proof fn locale_entries_error_stays(
    locale: Seq<char>,
    entries: Seq<(NodeV, NodeV)>,
    n: nat,
    m: nat,
    path: Seq<char>,
    before: Gathered,
)
    requires
        n <= m <= entries.len(),
        locale_entries(locale, entries, n, path, before) is Err,
    ensures
        locale_entries(locale, entries, m, path, before) == locale_entries(
            locale,
            entries,
            n,
            path,
            before,
        ),
    decreases m,
{
    if n < m {
        locale_entries_error_stays(locale, entries, n, (m - 1) as nat, path, before);
    }
}

proof fn files_error_stays(locale: Seq<char>, files: Seq<SourceFileV>, n: nat, m: nat)
    requires
        n <= m <= files.len(),
        files_read(locale, files, n) is Err,
    ensures
        files_read(locale, files, m) == files_read(locale, files, n),
    decreases m,
{
    if n < m {
        files_error_stays(locale, files, n, (m - 1) as nat);
    }
}

/// The lists of texts that a map holds.
pub open spec fn lists(m: Map<Seq<char>, Vec<String>>) -> Map<Seq<char>, Seq<Seq<char>>> {
    m.map_values(|v: Vec<String>| texts(v@))
}

/// What a tree and the warnings of its reading hold.
pub open spec fn locale_model(tree: &LocaleTree, warnings: &Vec<String>) -> LocaleV {
    LocaleV { found: gathered(tree, warnings), file_locales: lists(tree.file_locales@) }
}

fn scalar_key_names(entries: &Vec<(Node, Node)>) -> (out: Vec<String>)
    ensures
        texts(out@) == scalar_keys(entries_model(entries@), entries.len() as nat),
{
    let mut out: Vec<String> = Vec::new();
    let mut i: usize = 0;
    assert(texts(out@) =~= Seq::empty());
    while i < entries.len()
        invariant
            i <= entries.len(),
            texts(out@) == scalar_keys(entries_model(entries@), i as nat),
        decreases entries.len() - i,
    {
        assert(entries_model(entries@)[i as int] == (entries@[i as int].0@, entries@[i as int].1@));
        if let Some(name) = entries[i].0.as_str() {
            push_text(&mut out, name.to_owned());
        }
        i = i + 1;
    }
    out
}

/// Adds what one file holds for the locale of the tree.
fn read_file(file: &SourceFile, tree: &mut LocaleTree, warnings: &mut Vec<String>) -> (r: Result<
    (),
    String,
>)
    requires
        old(tree).indexed(),
    ensures
        final(tree).indexed(),
        final(tree).locale@ == old(tree).locale@,
        match r {
            Ok(_) => file_read(old(tree).locale@, file@, locale_model(old(tree), old(warnings)))
                == Ok::<LocaleV, Seq<char>>(locale_model(final(tree), final(warnings))),
            Err(e) => file_read(old(tree).locale@, file@, locale_model(old(tree), old(warnings)))
                == Err::<LocaleV, Seq<char>>(e@),
        },
{
    let ghost first = locale_model(tree, warnings);
    let ghost locale = tree.locale@;
    match &file.root {
        Err(e) => Err(e.clone()),
        Ok(None) => Ok(()),
        Ok(Some(node)) => match node.as_map() {
            None => Err(concat(&file.path, ": expected a mapping at the top level")),
            Some(entries) => {
                let ghost model = entries_model(entries@);
                let names = scalar_key_names(entries);
                let ghost listed_names = texts(names@);
                tree.file_locales.insert(key_of_path(&file.path), names);
                let ghost filled = tree.file_locales;
                assert(lists(filled@) =~= first.file_locales.insert(
                    path_key(file.path@),
                    listed_names,
                ));
                assert(tree.data() =~= first.found.data);
                assert(tree.keys() =~= old(tree).keys());
                assert(gathered(tree, warnings) == first.found);
                let mut i: usize = 0;
                while i < entries.len()
                    invariant
                        i <= entries.len(),
                        model == entries_model(entries@),
                        locale == old(tree).locale@,
                        first == locale_model(old(tree), old(warnings)),
                        file.root matches Ok(Some(n)) && n@.entries() == Some(model),
                        tree.indexed(),
                        tree.locale@ == locale,
                        tree.file_locales == filled,
                        locale_entries(locale, model, i as nat, file.path@, first.found) == Ok::<
                            Gathered,
                            Seq<char>,
                        >(gathered(tree, warnings)),
                    ensures
                        i == entries.len(),
                        tree.indexed(),
                        tree.locale@ == locale,
                        tree.file_locales == filled,
                        locale_entries(locale, model, i as nat, file.path@, first.found) == Ok::<
                            Gathered,
                            Seq<char>,
                        >(gathered(tree, warnings)),
                    decreases entries.len() - i,
                {
                    let entry = &entries[i];
                    assert(model[i as int] == (entry.0@, entry.1@));
                    let wanted = match entry.0.as_str() {
                        Some(name) => same_text(name, &tree.locale),
                        None => false,
                    };
                    if wanted {
                        let mut prefix: Vec<String> = Vec::new();
                        assert(texts(prefix@) =~= Seq::<Seq<char>>::empty());
                        match flatten(&entry.1, &mut prefix, &file.path, tree, warnings) {
                            Ok(_) => {},
                            Err(e) => {
                                proof {
                                    locale_entries_error_stays(
                                        locale,
                                        model,
                                        (i + 1) as nat,
                                        model.len(),
                                        file.path@,
                                        first.found,
                                    );
                                }
                                return Err(e);
                            },
                        }
                    }
                    i = i + 1;
                }
                Ok(())
            },
        },
    }
}

fn seen(files: &Vec<SourceFile>, n: usize) -> (b: bool)
    requires
        n < files.len(),
    ensures
        b == seen_before(files_model(files@), n as int),
{
    let mut j: usize = 0;
    while j < n
        invariant
            j <= n < files.len(),
            forall|k: int|
                0 <= k < j ==> !same_path(
                    (#[trigger] files_model(files@)[k]).path,
                    files_model(files@)[n as int].path,
                ),
        decreases n - j,
    {
        assert(files_model(files@)[j as int].path == files@[j as int].path@);
        if is_same_path(&files[j].path, &files[n].path) {
            return true;
        }
        j = j + 1;
    }
    false
}

/// Reads one locale from the files that its patterns reach, in the order of
/// the patterns. Gives the tree and the warnings, or the first error.
pub fn read_locale(locale: &str, files: &Vec<SourceFile>) -> (r: Result<
    (LocaleTree, Vec<String>),
    String,
>)
    ensures
        match r {
            Ok((tree, warnings)) => {
                &&& tree.wf()
                &&& tree.locale@ == locale@
                &&& locale_read(locale@, files_model(files@)) == Ok::<LocaleV, Seq<char>>(
                    locale_model(&tree, &warnings),
                )
            },
            Err(e) => locale_read(locale@, files_model(files@)) == Err::<LocaleV, Seq<char>>(e@),
        },
{
    let mut tree = LocaleTree::new(locale);
    let mut warnings: Vec<String> = Vec::new();
    let ghost model = files_model(files@);
    let mut i: usize = 0;
    proof {
        assert(texts(warnings@) =~= Seq::empty());
        assert(lists(tree.file_locales@) =~= Map::empty());
    }
    while i < files.len()
        invariant
            i <= files.len(),
            model == files_model(files@),
            tree.indexed(),
            tree.locale@ == locale@,
            files_read(locale@, model, i as nat) == Ok::<LocaleV, Seq<char>>(
                locale_model(&tree, &warnings),
            ),
        decreases files.len() - i,
    {
        if !seen(files, i) {
            match read_file(&files[i], &mut tree, &mut warnings) {
                Ok(_) => {},
                Err(e) => {
                    proof {
                        files_error_stays(locale@, model, (i + 1) as nat, model.len());
                    }
                    return Err(e);
                },
            }
        }
        i = i + 1;
    }
    tree.finish();
    Ok((tree, warnings))
}

} // verus!
