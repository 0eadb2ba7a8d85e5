//! What a generated config reads.
//!
//! The config is parsed and its data is loaded before it is offered, so that
//! its header can say what the settings read.
use crate::data::load::{clone_texts, LocaleTree};
use crate::data::store::Store;
use crate::stats::{capped, count_leaves, forest_totals};
use crate::text::{distinct, texts};
use crate::textmap::{distinct_sorted, TextMap};
use vstd::prelude::*;

verus! {

/// What the generated config read back.
pub struct Verification {
    pub locales: Vec<String>,
    pub key_count: usize,
    pub files_read: usize,
    /// Set where the generated config did not load. It is offered all the same.
    pub error: Option<String>,
}

/// What a [`Verification`] holds.
pub struct VerificationV {
    pub locales: Seq<Seq<char>>,
    pub key_count: int,
    pub files_read: int,
    pub error: Option<Seq<char>>,
}

impl View for Verification {
    type V = VerificationV;

    open spec fn view(&self) -> VerificationV {
        VerificationV {
            locales: texts(self.locales@),
            key_count: self.key_count as int,
            files_read: self.files_read as int,
            error: match self.error {
                Some(e) => Some(e@),
                None => None,
            },
        }
    }
}

/// The files that the trees of the first `n` locales come from.
pub open spec fn files_upto(
    trees: Map<Seq<char>, LocaleTree>,
    order: Seq<Seq<char>>,
    n: int,
) -> Seq<Seq<char>>
    decreases n,
{
    if n <= 0 {
        Seq::empty()
    } else {
        files_upto(trees, order, n - 1) + trees[order[n - 1]].file_locales.order()
    }
}

/// The files that the data of a project comes from, each once.
pub open spec fn files_of(store: &Store) -> Seq<Seq<char>> {
    distinct(files_upto(store.trees@, store.trees.order(), store.trees.order().len() as int))
}

/// What a config reads, or why it does not load.
pub open spec fn verification(loaded: &Result<Store, String>) -> VerificationV {
    match loaded {
        Err(e) => VerificationV {
            locales: Seq::empty(),
            key_count: 0,
            files_read: 0,
            error: Some(e@),
        },
        Ok(store) => VerificationV {
            locales: texts(store.locales@),
            key_count: capped(
                forest_totals(store, texts(store.locales@), store.locales.len() as int).keys,
            ),
            files_read: files_of(store).len() as int,
            error: None,
        },
    }
}

fn push_keys(paths: &mut Vec<String>, map: &TextMap<Vec<String>>)
    ensures
        texts(final(paths)@) == texts(old(paths)@) + map.order(),
{
    let ghost before = texts(paths@);
    let n = map.len();
    let mut i: usize = 0;
    assert(texts(paths@) =~= before + map.order().take(0));
    while i < n
        invariant
            i <= n == map.order().len(),
            texts(paths@) == before + map.order().take(i as int),
        decreases n - i,
    {
        let key = map.key_at(i).clone();
        crate::text::push_text(paths, key);
        i = i + 1;
        assert(map.order().take(i as int) =~= map.order().take(i - 1).push(map.order()[i - 1]));
        assert(texts(paths@) =~= before + map.order().take(i as int));
    }
    assert(map.order().take(n as int) =~= map.order());
}

fn count_files(store: &Store) -> (n: usize)
    ensures
        n == files_of(store).len(),
{
    let ghost order = store.trees.order();
    let mut paths: Vec<String> = Vec::new();
    let n = store.trees.len();
    let mut i: usize = 0;
    assert(texts(paths@) =~= Seq::empty());
    while i < n
        invariant
            i <= n == order.len(),
            order == store.trees.order(),
            texts(paths@) == files_upto(store.trees@, order, i as int),
        decreases n - i,
    {
        let tree = store.trees.value_at(i);
        push_keys(&mut paths, &tree.file_locales);
        i = i + 1;
    }
    let all = distinct_sorted(&paths);
    assert(texts(all@).len() == all.len());
    all.len()
}

/// Says what a generated config reads. `loaded` is the data that was loaded
/// with it, or why it did not parse or load.
pub fn verify(loaded: &Result<Store, String>) -> (r: Verification)
    ensures
        r@ == verification(loaded),
{
    match loaded {
        Err(e) => {
            let locales: Vec<String> = Vec::new();
            assert(texts(locales@) =~= Seq::empty());
            Verification { locales, key_count: 0, files_read: 0, error: Some(e.clone()) }
        },
        Ok(store) => Verification {
            locales: clone_texts(&store.locales),
            key_count: count_leaves(store, &store.locales).keys,
            files_read: count_files(store),
            error: None,
        },
    }
}

} // verus!
