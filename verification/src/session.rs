//! The state that every command shares, and the locale list that it runs over.
use crate::config::Config;
use crate::data::load::clone_texts;
use crate::data::store::Store;
use crate::text::{alnum, concat, is_alnum, join, join_of, lists_text, same_text, texts};
use vstd::prelude::*;

verus! {

/// What a session is opened with.
pub struct SessionOptions {
    /// The config file to read.
    pub config: String,
    /// Directory that every config path is relative to. `None` means the
    /// working directory.
    pub root: Option<String>,
    /// The locales asked for, before `all`, `base` and validation.
    pub locales: Vec<String>,
    /// Whether reports are printed as JSON.
    pub json: bool,
}

/// What every command shares, loaded once.
pub struct Session {
    pub cfg: Config,
    pub store: Store,
    pub locales: Vec<String>,
    pub json: bool,
}

impl Session {
    /// Builds a session from its config and its data, with the locales that
    /// were asked for.
    pub fn with_locales(cfg: Config, store: Store, requested: &Vec<String>, json: bool) -> (r:
        Result<Session, String>)
        ensures
            match r {
                Ok(s) => {
                    &&& s.cfg == cfg
                    &&& s.store == store
                    &&& s.json == json
                    &&& resolved_locales(
                        texts(requested@),
                        store.base_locale@,
                        texts(store.locales@),
                    ) == Ok::<Seq<Seq<char>>, Seq<char>>(texts(s.locales@))
                },
                Err(e) => resolved_locales(
                    texts(requested@),
                    store.base_locale@,
                    texts(store.locales@),
                ) == Err::<Seq<Seq<char>>, Seq<char>>(e@),
            },
    {
        match resolve_locales(requested, &store) {
            Ok(locales) => Ok(Session { cfg, store, locales, json }),
            Err(e) => Err(e),
        }
    }
}

/// The locales asked for, with `base` read as the base locale.
pub open spec fn with_base_named(requested: Seq<Seq<char>>, base: Seq<char>) -> Seq<Seq<char>> {
    Seq::new(
        requested.len(),
        |i: int|
            if requested[i] == "base"@ {
                base
            } else {
                requested[i]
            },
    )
}

/// The first place of `base`, or the length where it does not occur.
pub open spec fn place_of(v: Seq<Seq<char>>, base: Seq<char>) -> int
    decreases v.len(),
{
    if v.len() == 0 || v[0] == base {
        0
    } else {
        1 + place_of(v.skip(1), base)
    }
}

/// The list with the first `base` and what stands in front exchanged.
pub open spec fn with_base_in_front(v: Seq<Seq<char>>, base: Seq<char>) -> Seq<Seq<char>> {
    let p = place_of(v, base);
    if p == 0 || p == v.len() {
        v
    } else {
        v.update(0, v[p]).update(p, v[0])
    }
}

/// The first `n` texts, each kept only where it comes up first.
pub open spec fn first_of_each(v: Seq<Seq<char>>, n: int) -> Seq<Seq<char>>
    decreases n,
{
    if n <= 0 {
        Seq::empty()
    } else {
        let before = first_of_each(v, n - 1);
        if before.contains(v[n - 1]) {
            before
        } else {
            before.push(v[n - 1])
        }
    }
}

/// The locales that a request names, before they are checked.
pub open spec fn named_locales(requested: Seq<Seq<char>>, base: Seq<char>) -> Seq<Seq<char>> {
    let v = with_base_in_front(with_base_named(requested, base), base);
    first_of_each(v, v.len() as int)
}

/// A letter, a digit or an underscore, and after it also `-` and `.`.
pub open spec fn is_valid_locale(s: Seq<char>) -> bool {
    &&& s.len() > 0
    &&& is_alnum(s[0]) || s[0] == '_'
    &&& forall|i: int|
        1 <= i < s.len() ==> is_alnum(#[trigger] s[i]) || s[i] == '_' || s[i] == '-' || s[i] == '.'
}

/// Why a locale is refused.
pub open spec fn refusal(locale: Seq<char>, configured: Seq<Seq<char>>) -> Option<Seq<char>> {
    if !is_valid_locale(locale) {
        Some("invalid locale `"@ + locale + "`"@)
    } else if !configured.contains(locale) {
        Some(
            "unknown locale `"@ + locale + "`. Configured locales: "@ + join_of(
                configured,
                ", "@,
            ),
        )
    } else {
        None
    }
}

/// Why the first refused of `locales[from..]` is refused.
pub open spec fn first_refusal(
    locales: Seq<Seq<char>>,
    from: int,
    configured: Seq<Seq<char>>,
) -> Option<Seq<char>>
    decreases locales.len() - from,
{
    if from < 0 || from >= locales.len() {
        None
    } else {
        match refusal(locales[from], configured) {
            Some(e) => Some(e),
            None => first_refusal(locales, from + 1, configured),
        }
    }
}

/// The locales that a request stands for, or why it is refused.
pub open spec fn resolved_locales(
    requested: Seq<Seq<char>>,
    base: Seq<char>,
    configured: Seq<Seq<char>>,
) -> Result<Seq<Seq<char>>, Seq<char>> {
    if requested.len() == 0 || requested == seq!["all"@] {
        Ok(configured)
    } else {
        let named = named_locales(requested, base);
        match first_refusal(named, 0, configured) {
            Some(e) => Err(e),
            None => Ok(named),
        }
    }
}

proof fn place_is_first(v: Seq<Seq<char>>, base: Seq<char>)
    ensures
        0 <= place_of(v, base) <= v.len(),
        place_of(v, base) < v.len() ==> v[place_of(v, base)] == base,
        forall|j: int| 0 <= j < place_of(v, base) ==> v[j] != base,
    decreases v.len(),
{
    if v.len() > 0 && v[0] != base {
        place_is_first(v.skip(1), base);
        assert forall|j: int| 0 <= j < place_of(v, base) implies v[j] != base by {
            if j > 0 {
                assert(v.skip(1)[j - 1] == v[j]);
            }
        }
    }
}

fn find_place(v: &Vec<String>, base: &str) -> (p: usize)
    ensures
        p == place_of(texts(v@), base@),
{
    let ghost all = texts(v@);
    let mut i: usize = 0;
    proof {
        place_is_first(all, base@);
    }
    while i < v.len()
        invariant
            i <= v.len(),
            all == texts(v@),
            0 <= place_of(all, base@) <= all.len(),
            place_of(all, base@) < all.len() ==> all[place_of(all, base@)] == base@,
            forall|j: int| 0 <= j < place_of(all, base@) ==> all[j] != base@,
            forall|j: int| 0 <= j < i ==> all[j] != base@,
        decreases v.len() - i,
    {
        if same_text(&v[i], base) {
            assert(all[i as int] == base@);
            return i;
        }
        assert(all[i as int] != base@);
        i = i + 1;
    }
    i
}

fn keep_first(v: Vec<String>) -> (out: Vec<String>)
    ensures
        texts(out@) == first_of_each(texts(v@), v.len() as int),
{
    let ghost all = texts(v@);
    let mut out: Vec<String> = Vec::new();
    let mut i: usize = 0;
    assert(texts(out@) =~= Seq::empty());
    while i < v.len()
        invariant
            i <= v.len(),
            all == texts(v@),
            texts(out@) == first_of_each(all, i as int),
        decreases v.len() - i,
    {
        assert(all[i as int] == v@[i as int]@);
        if !lists_text(&out, &v[i]) {
            let ghost before = texts(out@);
            out.push(v[i].clone());
            assert(texts(out@) =~= before.push(all[i as int]));
        }
        i = i + 1;
    }
    out
}

fn find_refusal(locales: &Vec<String>, configured: &Vec<String>) -> (r: Option<String>)
    ensures
        first_refusal(texts(locales@), 0, texts(configured@)) == match r {
            Some(e) => Some(e@),
            None => None,
        },
{
    let ghost all = texts(locales@);
    let ghost known = texts(configured@);
    let mut k: usize = 0;
    while k < locales.len()
        invariant
            k <= locales.len(),
            all == texts(locales@),
            known == texts(configured@),
            first_refusal(all, k as int, known) == first_refusal(all, 0, known),
        decreases locales.len() - k,
    {
        let l = &locales[k];
        assert(all[k as int] == l@);
        if !valid_locale(l) {
            let mut e = concat("invalid locale `", l);
            e.append("`");
            return Some(e);
        }
        if !lists_text(configured, l) {
            let mut e = concat("unknown locale `", l);
            e.append("`. Configured locales: ");
            e.append(&join(configured, ", "));
            return Some(e);
        }
        k = k + 1;
    }
    None
}

/// The locales that a request stands for.
///
/// An empty request, or a lone `all`, means every configured locale. Otherwise
/// `base` names the base locale. Where the base locale is not the first one
/// named, it changes places with the first, so that a report starts with it.
pub fn resolve_locales(requested: &Vec<String>, store: &Store) -> (r: Result<Vec<String>, String>)
    ensures
        match r {
            Ok(v) => resolved_locales(
                texts(requested@),
                store.base_locale@,
                texts(store.locales@),
            ) == Ok::<Seq<Seq<char>>, Seq<char>>(texts(v@)),
            Err(e) => resolved_locales(
                texts(requested@),
                store.base_locale@,
                texts(store.locales@),
            ) == Err::<Seq<Seq<char>>, Seq<char>>(e@),
        },
{
    let ghost asked = texts(requested@);
    let ghost base = store.base_locale@;
    assert(asked.len() == requested.len());
    if requested.len() == 0 {
        return Ok(clone_texts(&store.locales));
    }
    if requested.len() == 1 && same_text(&requested[0], "all") {
        assert(asked =~= seq!["all"@]);
        return Ok(clone_texts(&store.locales));
    }
    assert(asked != seq!["all"@]) by {
        if asked == seq!["all"@] {
            assert(asked[0] == requested@[0]@);
            assert(seq!["all"@][0] == "all"@);
        }
    }
    let mut named: Vec<String> = Vec::new();
    let mut i: usize = 0;
    let ghost with_base = with_base_named(asked, base);
    while i < requested.len()
        invariant
            i <= requested.len(),
            named.len() == i,
            asked == texts(requested@),
            base == store.base_locale@,
            with_base == with_base_named(asked, base),
            forall|j: int| 0 <= j < i ==> (#[trigger] named@[j])@ == with_base[j],
        decreases requested.len() - i,
    {
        assert(asked[i as int] == requested@[i as int]@);
        if same_text(&requested[i], "base") {
            named.push(store.base_locale.clone());
        } else {
            named.push(requested[i].clone());
        }
        i = i + 1;
    }
    assert(texts(named@) =~= with_base);
    let p = find_place(&named, &store.base_locale);
    proof {
        place_is_first(with_base, base);
    }
    if p > 0 && p < named.len() {
        let front = named[0].clone();
        let back = named[p].clone();
        named.set(0, back);
        named.set(p, front);
    }
    assert(texts(named@) =~= with_base_in_front(with_base, base));
    let locales = keep_first(named);
    assert(texts(locales@) == named_locales(asked, base));
    match find_refusal(&locales, &store.locales) {
        Some(e) => Err(e),
        None => Ok(locales),
    }
}

/// Whether a text can name a locale.
pub fn valid_locale(locale: &str) -> (b: bool)
    ensures
        b == is_valid_locale(locale@),
{
    let mut first = true;
    for c in it: locale.chars()
        invariant
            it.seq() == locale@,
            first == (it.index() == 0),
            it.index() > 0 ==> is_alnum(locale@[0]) || locale@[0] == '_',
            forall|j: int|
                1 <= j < it.index() ==> is_alnum(#[trigger] locale@[j]) || locale@[j] == '_'
                    || locale@[j] == '-' || locale@[j] == '.',
    {
        assert(c == locale@[it.index()]);
        if !(alnum(c) || c == '_' || (!first && (c == '-' || c == '.'))) {
            return false;
        }
        first = false;
    }
    !first
}

// -------------------------------------------------------------------------- laws

/// What `first_of_each` keeps: the texts that came up, each once.
proof fn first_of_each_is_a_list_of_them(v: Seq<Seq<char>>, n: int)
    requires
        0 <= n <= v.len(),
    ensures
        first_of_each(v, n).no_duplicates(),
        forall|s: Seq<char>| #[trigger]
            first_of_each(v, n).contains(s) <==> v.take(n).contains(s),
        n > 0 ==> first_of_each(v, n).len() > 0 && first_of_each(v, n)[0] == v[0],
    decreases n,
{
    if n > 0 {
        first_of_each_is_a_list_of_them(v, n - 1);
        let before = first_of_each(v, n - 1);
        let now = first_of_each(v, n);
        assert(v.take(n) =~= v.take(n - 1).push(v[n - 1]));
        assert forall|s: Seq<char>| #[trigger] now.contains(s) <==> v.take(n).contains(s) by {
            if now.contains(s) {
                let i = now.index_of(s);
                if i < before.len() {
                    assert(before[i] == s);
                    assert(before.contains(s));
                    let j = v.take(n - 1).index_of(s);
                    assert(v.take(n)[j] == s);
                } else {
                    assert(v.take(n)[n - 1] == s);
                }
            }
            if v.take(n).contains(s) {
                let j = v.take(n).index_of(s);
                if j < n - 1 {
                    assert(v.take(n - 1)[j] == s);
                    assert(before.contains(s));
                    assert(now[before.index_of(s)] == s);
                } else if before.contains(s) {
                    assert(now[before.index_of(s)] == s);
                } else {
                    assert(now[before.len() as int] == s);
                }
            }
        }
        if n == 1 {
            assert(before =~= Seq::empty());
        }
    } else {
        assert(first_of_each(v, n) =~= Seq::empty());
        assert(v.take(0) =~= Seq::empty());
    }
}

/// A report starts with the base locale wherever it runs over it: among the
/// locales that a request names, the base locale is the first.
pub proof fn the_base_locale_comes_first(requested: Seq<Seq<char>>, base: Seq<char>)
    requires
        named_locales(requested, base).contains(base),
    ensures
        named_locales(requested, base)[0] == base,
{
    let named = with_base_named(requested, base);
    let v = with_base_in_front(named, base);
    place_is_first(named, base);
    first_of_each_is_a_list_of_them(v, v.len() as int);
    assert(v.take(v.len() as int) =~= v);
    let j = v.index_of(base);
    assert(v[j] == base);
    let p = place_of(named, base);
    if p == named.len() {
        assert(named[j] == base);
    }
}

/// A locale that is asked for more than once is run over once.
pub proof fn no_locale_comes_twice(requested: Seq<Seq<char>>, base: Seq<char>)
    ensures
        named_locales(requested, base).no_duplicates(),
{
    let v = with_base_in_front(with_base_named(requested, base), base);
    first_of_each_is_a_list_of_them(v, v.len() as int);
}

/// Nothing but the locales asked for is run over, and none of them is left out.
pub proof fn the_locales_asked_for_are_run_over(requested: Seq<Seq<char>>, base: Seq<char>)
    ensures
        forall|s: Seq<char>| #[trigger]
            named_locales(requested, base).contains(s) <==> with_base_named(
                requested,
                base,
            ).contains(s),
{
    let named = with_base_named(requested, base);
    let v = with_base_in_front(named, base);
    place_is_first(named, base);
    first_of_each_is_a_list_of_them(v, v.len() as int);
    assert(v.take(v.len() as int) =~= v);
    let p = place_of(named, base);
    assert forall|s: Seq<char>| #[trigger] v.contains(s) <==> named.contains(s) by {
        if v.contains(s) {
            let j = v.index_of(s);
            assert(named[j] == s || named[0] == s || named[p] == s);
        }
        if named.contains(s) {
            let j = named.index_of(s);
            assert(v[j] == s || v[0] == s || v[p] == s);
        }
    }
}

/// Every locale that a granted request stands for is configured.
pub proof fn a_granted_locale_is_configured(
    requested: Seq<Seq<char>>,
    base: Seq<char>,
    configured: Seq<Seq<char>>,
    i: int,
)
    requires
        resolved_locales(requested, base, configured) is Ok,
        0 <= i < resolved_locales(requested, base, configured)->Ok_0.len(),
    ensures
        configured.contains(resolved_locales(requested, base, configured)->Ok_0[i]),
{
    let granted = resolved_locales(requested, base, configured)->Ok_0;
    if requested.len() == 0 || requested == seq!["all"@] {
        assert(configured[i] == granted[i]);
    } else {
        no_refusal_before(granted, 0, i, configured);
    }
}

proof fn no_refusal_before(
    locales: Seq<Seq<char>>,
    from: int,
    i: int,
    configured: Seq<Seq<char>>,
)
    requires
        0 <= from <= i < locales.len(),
        first_refusal(locales, from, configured) is None,
    ensures
        refusal(locales[i], configured) is None,
    decreases i - from,
{
    if from < i {
        no_refusal_before(locales, from + 1, i, configured);
    }
}

} // verus!
