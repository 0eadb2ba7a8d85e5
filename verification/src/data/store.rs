//! The data of every locale of a project.
use crate::config::extend_texts;
use crate::data::load::{
    files_model, interior_of, lists, locale_model, locale_read, read_locale, LocaleTree, LocaleV,
    SourceFile, SourceFileV,
};
use crate::text::texts;
use crate::textmap::TextMap;
use vstd::prelude::*;

verus! {

/// The data of a project: one tree per locale, and one of external data.
pub struct Store {
    pub base_locale: String,
    /// Base locale first, then the rest sorted.
    pub locales: Vec<String>,
    pub trees: TextMap<LocaleTree>,
    /// External data is never unused and never missing.
    pub external: TextMap<LocaleTree>,
    pub warnings: Vec<String>,
}

/// Every tree of the map is complete.
pub open spec fn all_wf(trees: Map<Seq<char>, LocaleTree>) -> bool {
    forall|l: Seq<char>| #[trigger] trees.contains_key(l) ==> trees[l].wf()
}

/// The key names a leaf or an interior node of the locale.
pub open spec fn holds_key(
    trees: Map<Seq<char>, LocaleTree>,
    locale: Seq<char>,
    key: Seq<char>,
) -> bool {
    trees.contains_key(locale) && (trees[locale].keys().contains(key) || interior_of(
        trees[locale].keys(),
        key,
    ))
}

/// What the files of each of the first `n` locales hold, or the first error.
pub open spec fn all_read(
    locales: Seq<Seq<char>>,
    files: Seq<Seq<SourceFileV>>,
    n: nat,
) -> Result<Seq<LocaleV>, Seq<char>>
    decreases n,
{
    if n == 0 || n > locales.len() {
        Ok(Seq::empty())
    } else {
        match all_read(locales, files, (n - 1) as nat) {
            Err(e) => Err(e),
            Ok(before) => match locale_read(locales[n - 1], files[n - 1]) {
                Ok(v) => Ok(before.push(v)),
                Err(e) => Err(e),
            },
        }
    }
}

proof fn read_error_stays(
    locales: Seq<Seq<char>>,
    files: Seq<Seq<SourceFileV>>,
    n: nat,
    m: nat,
)
    requires
        n <= m <= locales.len(),
        all_read(locales, files, n) is Err,
    ensures
        all_read(locales, files, m) == all_read(locales, files, n),
    decreases m,
{
    if n < m {
        read_error_stays(locales, files, n, (m - 1) as nat);
    }
}

/// The warnings of the first `n` locales, in their order.
pub open spec fn warnings_upto(read: Seq<LocaleV>, n: int) -> Seq<Seq<char>>
    decreases n,
{
    if n <= 0 {
        Seq::empty()
    } else {
        warnings_upto(read, n - 1) + read[n - 1].found.warnings
    }
}

/// What lists of files hold.
pub open spec fn file_lists(v: Seq<Vec<SourceFile>>) -> Seq<Seq<SourceFileV>> {
    Seq::new(v.len(), |i: int| files_model(v[i]@))
}

/// The map holds one complete tree per locale, with what was read for it.
pub open spec fn trees_hold(
    trees: Map<Seq<char>, LocaleTree>,
    locales: Seq<Seq<char>>,
    read: Seq<LocaleV>,
) -> bool {
    &&& locales.len() == read.len()
    &&& trees.dom() == locales.to_set()
    &&& all_wf(trees)
    &&& forall|i: int|
        0 <= i < locales.len() ==> {
            let tree = trees[#[trigger] locales[i]];
            &&& tree.locale@ == locales[i]
            &&& tree.data() == read[i].found.data
            &&& lists(tree.file_locales@) == read[i].file_locales
        }
}

/// One tree per locale, plus the warnings in the order of the locales. Of
/// several broken locales the first one names the error.
fn read_all(locales: &Vec<String>, files: &Vec<Vec<SourceFile>>) -> (r: Result<
    (TextMap<LocaleTree>, Vec<String>),
    String,
>)
    requires
        files.len() == locales.len(),
        texts(locales@).no_duplicates(),
    ensures
        match r {
            Ok((trees, warnings)) => {
                &&& all_read(texts(locales@), file_lists(files@), locales.len() as nat) matches Ok(
                    read,
                )
                &&& trees_hold(trees@, texts(locales@), read)
                &&& texts(warnings@) == warnings_upto(read, read.len() as int)
            },
            Err(e) => all_read(texts(locales@), file_lists(files@), locales.len() as nat) == Err::<
                Seq<LocaleV>,
                Seq<char>,
            >(e@),
        },
{
    let ghost names = texts(locales@);
    let ghost sources = file_lists(files@);
    let ghost mut read: Seq<LocaleV> = Seq::empty();
    let mut trees: TextMap<LocaleTree> = TextMap::new();
    let mut warnings: Vec<String> = Vec::new();
    let mut i: usize = 0;
    proof {
        assert(texts(warnings@) =~= Seq::empty());
        assert(trees@.dom() =~= names.take(0).to_set());
    }
    while i < locales.len()
        invariant
            i <= locales.len() == files.len(),
            names == texts(locales@),
            names.no_duplicates(),
            sources == file_lists(files@),
            all_read(names, sources, i as nat) == Ok::<Seq<LocaleV>, Seq<char>>(read),
            read.len() == i,
            trees_hold(trees@, names.take(i as int), read),
            texts(warnings@) == warnings_upto(read, i as int),
        decreases locales.len() - i,
    {
        assert(names[i as int] == locales@[i as int]@);
        assert(sources[i as int] == files_model(files@[i as int]@));
        match read_locale(&locales[i], &files[i]) {
            Ok((tree, own)) => {
                let ghost v = locale_model(&tree, &own);
                let ghost before = trees@;
                let ghost read0 = read;
                trees.insert(locales[i].clone(), tree);
                extend_texts(&mut warnings, &own);
                proof {
                    read = read.push(v);
                    let done = names.take(i + 1);
                    assert(done =~= names.take(i as int).push(names[i as int]));
                    assert(trees@.dom() =~= done.to_set()) by {
                        assert forall|l: Seq<char>| trees@.dom().contains(l) <==> done.to_set().contains(
                            l,
                        ) by {
                            if done.contains(l) && l != names[i as int] {
                                let j = done.index_of(l);
                                assert(names.take(i as int)[j] == l);
                                assert(names.take(i as int).to_set().contains(l));
                            }
                            if names.take(i as int).contains(l) {
                                let j = names.take(i as int).index_of(l);
                                assert(done[j] == l);
                            }
                            assert(done[i as int] == names[i as int]);
                        }
                    }
                    assert forall|j: int| 0 <= j < done.len() implies {
                        let tree = trees@[#[trigger] done[j]];
                        &&& tree.locale@ == done[j]
                        &&& tree.data() == read[j].found.data
                        &&& lists(tree.file_locales@) == read[j].file_locales
                    } by {
                        if j < i {
                            assert(names[j] != names[i as int]);
                            assert(names.take(i as int)[j] == names[j]);
                        }
                    }
                    warnings_grow(read0, v, i as int);
                }
            },
            Err(e) => {
                proof {
                    read_error_stays(names, sources, (i + 1) as nat, names.len());
                }
                return Err(e);
            },
        }
        i = i + 1;
    }
    assert(names.take(i as int) =~= names);
    Ok((trees, warnings))
}

proof fn warnings_grow(read: Seq<LocaleV>, v: LocaleV, n: int)
    requires
        n <= read.len(),
    ensures
        warnings_upto(read.push(v), n) == warnings_upto(read, n),
    decreases n,
{
    if n > 0 {
        warnings_grow(read, v, n - 1);
    }
}

impl Store {
    /// Every tree is complete.
    pub open spec fn wf(&self) -> bool {
        all_wf(self.trees@) && all_wf(self.external@)
    }

    /// The data of a locale.
    pub fn tree(&self, locale: &str) -> (r: Option<&LocaleTree>)
        ensures
            match r {
                Some(t) => self.trees@.contains_key(locale@) && self.trees@[locale@] == *t,
                None => !self.trees@.contains_key(locale@),
            },
    {
        self.trees.get(locale)
    }

    /// Whether the external data of the locale has the key.
    pub fn external_has(&self, locale: &str, key: &str) -> (b: bool)
        requires
            self.wf(),
        ensures
            b == holds_key(self.external@, locale@, key@),
    {
        match self.external.get(locale) {
            Some(t) => t.has_key(key),
            None => false,
        }
    }

    /// Whether the data of the locale has the key.
    pub fn key_value(&self, locale: &str, key: &str) -> (b: bool)
        requires
            self.wf(),
        ensures
            b == holds_key(self.trees@, locale@, key@),
    {
        match self.trees.get(locale) {
            Some(t) => t.has_key(key),
            None => false,
        }
    }

    /// Loads the data of the locales from the files that the patterns of
    /// `data.read` and of `data.external` reach for each of them. The first
    /// locale whose files cannot be read names the error; data comes before
    /// external data.
    pub fn load(
        base_locale: &str,
        locales: Vec<String>,
        read: &Vec<Vec<SourceFile>>,
        external: &Vec<Vec<SourceFile>>,
    ) -> (r: Result<Store, String>)
        requires
            read.len() == locales.len(),
            external.len() == locales.len(),
            texts(locales@).no_duplicates(),
        ensures
            match r {
                Ok(store) => {
                    let names = texts(locales@);
                    &&& all_read(names, file_lists(read@), names.len()) matches Ok(own)
                    &&& all_read(names, file_lists(external@), names.len()) matches Ok(others)
                    &&& store.wf()
                    &&& store.base_locale@ == base_locale@
                    &&& texts(store.locales@) == names
                    &&& trees_hold(store.trees@, names, own)
                    &&& trees_hold(store.external@, names, others)
                    &&& texts(store.warnings@) == warnings_upto(own, own.len() as int)
                        + warnings_upto(others, others.len() as int)
                },
                Err(e) => {
                    let names = texts(locales@);
                    let own = all_read(names, file_lists(read@), names.len());
                    ||| own == Err::<Seq<LocaleV>, Seq<char>>(e@)
                    ||| own is Ok && all_read(names, file_lists(external@), names.len()) == Err::<
                        Seq<LocaleV>,
                        Seq<char>,
                    >(e@)
                },
            },
    {
        assert(texts(locales@).len() == locales.len());
        match read_all(&locales, read) {
            Err(e) => Err(e),
            Ok((trees, mut warnings)) => match read_all(&locales, external) {
                Err(e) => Err(e),
                Ok((external, more)) => {
                    extend_texts(&mut warnings, &more);
                    Ok(
                        Store {
                            base_locale: base_locale.to_owned(),
                            locales,
                            trees,
                            external,
                            warnings,
                        },
                    )
                },
            },
        }
    }
}

} // verus!
