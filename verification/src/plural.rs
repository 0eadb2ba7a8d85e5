//! Plural keys and the plural categories of each locale.
use crate::data::load::{children_of, plural_node_of, LocaleTree};
use crate::keys::{last_key_part, last_key_part_of, parent_key, parent_key_of};
use crate::text::{
    capital, is_ascii, chars_of, concat, position_from, position_of, same_text, text_between, texts,
    uppercase, uppercase_of,
};
use vstd::prelude::*;

verus! {

/// A CLDR plural category.
pub open spec fn is_category(s: Seq<char>) -> bool {
    s == "zero"@ || s == "one"@ || s == "two"@ || s == "few"@ || s == "many"@ || s == "other"@
}

/// A segment that names one plural form: a category, or the number 0 or 1.
pub open spec fn is_plural_suffix(s: Seq<char>) -> bool {
    is_category(s) || s == "0"@ || s == "1"@
}

fn category(key: &str) -> (b: bool)
    ensures
        b == is_category(key@),
{
    same_text(key, "zero") || same_text(key, "one") || same_text(key, "two") || same_text(
        key,
        "few",
    ) || same_text(key, "many") || same_text(key, "other")
}

/// Whether a segment names one plural form.
pub fn plural_suffix(key: &str) -> (b: bool)
    ensures
        b == is_plural_suffix(key@),
{
    category(key) || same_text(key, "0") || same_text(key, "1")
}

/// A locale with one form for 1 and one for the rest.
pub open spec fn one_other(s: Seq<char>) -> bool {
    ||| s == "bg"@
    ||| s == "bn"@
    ||| s == "ca"@
    ||| s == "da"@
    ||| s == "de"@
    ||| s == "de-AT"@
    ||| s == "de-CH"@
    ||| s == "de-DE"@
    ||| s == "el"@
    ||| s == "el-CY"@
    ||| s == "en"@
    ||| s == "en-AU"@
    ||| s == "en-CA"@
    ||| s == "en-CY"@
    ||| s == "en-GB"@
    ||| s == "en-IE"@
    ||| s == "en-IN"@
    ||| s == "en-NZ"@
    ||| s == "en-TT"@
    ||| s == "en-US"@
    ||| s == "en-ZA"@
    ||| s == "eo"@
    ||| s == "es"@
    ||| s == "es-419"@
    ||| s == "es-AR"@
    ||| s == "es-CL"@
    ||| s == "es-CO"@
    ||| s == "es-CR"@
    ||| s == "es-EC"@
    ||| s == "es-ES"@
    ||| s == "es-MX"@
    ||| s == "es-NI"@
    ||| s == "es-PA"@
    ||| s == "es-PE"@
    ||| s == "es-US"@
    ||| s == "es-VE"@
    ||| s == "et"@
    ||| s == "eu"@
    ||| s == "fi"@
    ||| s == "fy"@
    ||| s == "gl"@
    ||| s == "he"@
    ||| s == "hu"@
    ||| s == "is"@
    ||| s == "it"@
    ||| s == "it-CH"@
    ||| s == "ka"@
    ||| s == "kk"@
    ||| s == "mn"@
    ||| s == "nb"@
    ||| s == "ne"@
    ||| s == "nl"@
    ||| s == "nn"@
    ||| s == "oc"@
    ||| s == "pt"@
    ||| s == "pt-BR"@
    ||| s == "sc"@
    ||| s == "st"@
    ||| s == "sv"@
    ||| s == "sv-SE"@
    ||| s == "sw"@
    ||| s == "ta"@
    ||| s == "tr"@
    ||| s == "ur"@
    ||| s == "fr"@
    ||| s == "fr-CA"@
    ||| s == "fr-CH"@
    ||| s == "fr-FR"@
    ||| s == "hi"@
    ||| s == "hi-IN"@
    ||| s == "mg"@
    ||| s == "ml"@
    ||| s == "mr-IN"@
    ||| s == "or"@
    ||| s == "pa"@
    ||| s == "tl"@
    ||| s == "lv"@
    ||| s == "mk"@
}

fn has_one_other(s: &str) -> (b: bool)
    ensures
        b == one_other(s@),
{
    same_text(s, "bg") || same_text(s, "bn") || same_text(s, "ca") || same_text(s, "da")
        || same_text(s, "de") || same_text(s, "de-AT") || same_text(s, "de-CH")
        || same_text(s, "de-DE") || same_text(s, "el") || same_text(s, "el-CY")
        || same_text(s, "en") || same_text(s, "en-AU") || same_text(s, "en-CA")
        || same_text(s, "en-CY") || same_text(s, "en-GB") || same_text(s, "en-IE")
        || same_text(s, "en-IN") || same_text(s, "en-NZ") || same_text(s, "en-TT")
        || same_text(s, "en-US") || same_text(s, "en-ZA") || same_text(s, "eo")
        || same_text(s, "es") || same_text(s, "es-419") || same_text(s, "es-AR")
        || same_text(s, "es-CL") || same_text(s, "es-CO") || same_text(s, "es-CR")
        || same_text(s, "es-EC") || same_text(s, "es-ES") || same_text(s, "es-MX")
        || same_text(s, "es-NI") || same_text(s, "es-PA") || same_text(s, "es-PE")
        || same_text(s, "es-US") || same_text(s, "es-VE") || same_text(s, "et")
        || same_text(s, "eu") || same_text(s, "fi") || same_text(s, "fy") || same_text(s, "gl")
        || same_text(s, "he") || same_text(s, "hu") || same_text(s, "is") || same_text(s, "it")
        || same_text(s, "it-CH") || same_text(s, "ka") || same_text(s, "kk") || same_text(s, "mn")
        || same_text(s, "nb") || same_text(s, "ne") || same_text(s, "nl") || same_text(s, "nn")
        || same_text(s, "oc") || same_text(s, "pt") || same_text(s, "pt-BR") || same_text(s, "sc")
        || same_text(s, "st") || same_text(s, "sv") || same_text(s, "sv-SE") || same_text(s, "sw")
        || same_text(s, "ta") || same_text(s, "tr") || same_text(s, "ur") || same_text(s, "fr")
        || same_text(s, "fr-CA") || same_text(s, "fr-CH") || same_text(s, "fr-FR")
        || same_text(s, "hi") || same_text(s, "hi-IN") || same_text(s, "mg") || same_text(s, "ml")
        || same_text(s, "mr-IN") || same_text(s, "or") || same_text(s, "pa") || same_text(s, "tl")
        || same_text(s, "lv") || same_text(s, "mk")
}

/// A locale with a single form.
pub open spec fn other(s: Seq<char>) -> bool {
    ||| s == "az"@
    ||| s == "fa"@
    ||| s == "id"@
    ||| s == "ja"@
    ||| s == "km"@
    ||| s == "kn"@
    ||| s == "ko"@
    ||| s == "lo"@
    ||| s == "ms"@
    ||| s == "pap-AW"@
    ||| s == "pap-CW"@
    ||| s == "th"@
    ||| s == "vi"@
    ||| s == "wo"@
    ||| s == "zh-CN"@
    ||| s == "zh-HK"@
    ||| s == "zh-TW"@
    ||| s == "zh-YUE"@
}

fn has_other(s: &str) -> (b: bool)
    ensures
        b == other(s@),
{
    same_text(s, "az") || same_text(s, "fa") || same_text(s, "id") || same_text(s, "ja")
        || same_text(s, "km") || same_text(s, "kn") || same_text(s, "ko") || same_text(s, "lo")
        || same_text(s, "ms") || same_text(s, "pap-AW") || same_text(s, "pap-CW")
        || same_text(s, "th") || same_text(s, "vi") || same_text(s, "wo") || same_text(s, "zh-CN")
        || same_text(s, "zh-HK") || same_text(s, "zh-TW") || same_text(s, "zh-YUE")
}

/// A locale with a form for few besides.
pub open spec fn one_few_other(s: Seq<char>) -> bool {
    ||| s == "bs"@
    ||| s == "hr"@
    ||| s == "sr"@
    ||| s == "cs"@
    ||| s == "sk"@
    ||| s == "ro"@
    ||| s == "lt"@
}

fn has_one_few_other(s: &str) -> (b: bool)
    ensures
        b == one_few_other(s@),
{
    same_text(s, "bs") || same_text(s, "hr") || same_text(s, "sr") || same_text(s, "cs")
        || same_text(s, "sk") || same_text(s, "ro") || same_text(s, "lt")
}

/// A locale with forms for few and for many besides.
pub open spec fn one_few_many_other(s: Seq<char>) -> bool {
    ||| s == "be"@
    ||| s == "ru"@
    ||| s == "uk"@
    ||| s == "pl"@
}

fn has_one_few_many_other(s: &str) -> (b: bool)
    ensures
        b == one_few_many_other(s@),
{
    same_text(s, "be") || same_text(s, "ru") || same_text(s, "uk") || same_text(s, "pl")
}

/// A locale with forms for two and for few besides.
pub open spec fn one_two_few_other(s: Seq<char>) -> bool {
    ||| s == "gd"@
    ||| s == "hsb"@
    ||| s == "sl"@
}

fn has_one_two_few_other(s: &str) -> (b: bool)
    ensures
        b == one_two_few_other(s@),
{
    same_text(s, "gd") || same_text(s, "hsb") || same_text(s, "sl")
}

/// A locale with all six forms.
pub open spec fn all_six(s: Seq<char>) -> bool {
    ||| s == "ar"@
}

fn has_all_six(s: &str) -> (b: bool)
    ensures
        b == all_six(s@),
{
    same_text(s, "ar")
}

/// The categories that the pluralization rules of a locale use, where the
/// table holds the locale.
pub open spec fn table_entry(s: Seq<char>) -> Option<Seq<Seq<char>>> {
    if one_other(s) {
        Some(seq!["one"@, "other"@])
    } else if other(s) {
        Some(seq!["other"@])
    } else if one_few_other(s) {
        Some(seq!["one"@, "few"@, "other"@])
    } else if one_few_many_other(s) {
        Some(seq!["one"@, "few"@, "many"@, "other"@])
    } else if one_two_few_other(s) {
        Some(seq!["one"@, "two"@, "few"@, "other"@])
    } else if all_six(s) {
        Some(seq!["zero"@, "one"@, "two"@, "few"@, "many"@, "other"@])
    } else {
        None
    }
}

/// The texts that a list of literals holds.
pub open spec fn names<'a>(v: Seq<&'a str>) -> Seq<Seq<char>> {
    Seq::new(v.len(), |i: int| v[i]@)
}

fn entry(s: &str) -> (r: Option<Vec<&'static str>>)
    ensures
        match r {
            Some(v) => table_entry(s@) == Some(names(v@)),
            None => table_entry(s@) is None,
        },
{
    let v: Vec<&'static str> = if has_one_other(s) {
        vec!["one", "other"]
    } else if has_other(s) {
        vec!["other"]
    } else if has_one_few_other(s) {
        vec!["one", "few", "other"]
    } else if has_one_few_many_other(s) {
        vec!["one", "few", "many", "other"]
    } else if has_one_two_few_other(s) {
        vec!["one", "two", "few", "other"]
    } else if has_all_six(s) {
        vec!["zero", "one", "two", "few", "many", "other"]
    } else {
        return None;
    };
    assert(table_entry(s@) is Some && table_entry(s@)->Some_0 =~= names(v@));
    Some(v)
}

/// `pt-br` is also looked up as `pt-BR`. `None` for a locale without a region.
pub open spec fn alternate_locale_of(locale: Seq<char>) -> Option<Seq<char>> {
    let i = position_of(locale, '-');
    if 0 <= i < locale.len() {
        Some(locale.take(i) + "-"@ + uppercase_of(locale.skip(i + 1)))
    } else {
        None
    }
}

/// The other spelling of an ASCII locale: its region in capitals.
pub open spec fn ascii_alternate_of(locale: Seq<char>) -> Option<Seq<char>> {
    let i = position_of(locale, '-');
    if 0 <= i < locale.len() {
        Some(locale.take(i) + "-"@ + locale.skip(i + 1).map_values(|c: char| capital(c)))
    } else {
        None
    }
}

fn alternate_locale(locale: &str) -> (r: Option<String>)
    ensures
        match r {
            Some(s) => alternate_locale_of(locale@) == Some(s@) && (is_ascii(locale@)
                ==> ascii_alternate_of(locale@) == Some(s@)),
            None => alternate_locale_of(locale@) is None && ascii_alternate_of(locale@) is None,
        },
{
    let v = chars_of(locale);
    let i = position_from(&v, '-', 0);
    assert(v@.skip(0) =~= locale@);
    if i < v.len() {
        let lang = text_between(&v, 0, i);
        let region = text_between(&v, i + 1, v.len());
        assert(lang@ =~= locale@.take(i as int));
        assert(region@ =~= locale@.skip(i + 1));
        Some(concat(&concat(&lang, "-"), &uppercase(&region)))
    } else {
        None
    }
}

/// The categories that every plural node of the locale must provide; `None`
/// where neither the locale nor its alternate spelling is in the table.
pub open spec fn required_categories_of(locale: Seq<char>) -> Option<Seq<Seq<char>>> {
    categories_under(locale, alternate_locale_of(locale))
}

/// The categories under a locale, or else under its other spelling.
pub open spec fn categories_under(locale: Seq<char>, other: Option<Seq<char>>) -> Option<
    Seq<Seq<char>>,
> {
    if locale.len() > 0 && table_entry(locale) is Some {
        table_entry(locale)
    } else {
        match other {
            Some(other) => table_entry(other),
            None => None,
        }
    }
}

/// The category set every plural node in `locale` must provide. An unknown
/// locale gives `None`, and no plural of it is reported.
pub fn required_categories(locale: &str) -> (r: Option<Vec<&'static str>>)
    ensures
        match r {
            Some(v) => required_categories_of(locale@) == Some(names(v@)),
            None => required_categories_of(locale@) is None,
        },
        is_ascii(locale@) ==> match r {
            Some(v) => categories_under(locale@, ascii_alternate_of(locale@)) == Some(names(v@)),
            None => categories_under(locale@, ascii_alternate_of(locale@)) is None,
        },
{
    if !locale.is_empty() {
        if let Some(v) = entry(locale) {
            return Some(v);
        }
    }
    match alternate_locale(locale) {
        Some(other) => entry(&other),
        None => None,
    }
}

/// What a lookup of `parent` in one tree says: `None` where the tree has
/// nothing below it.
pub open spec fn plural_lookup(keys: Seq<Seq<char>>, parent: Seq<char>) -> Option<bool> {
    if children_of(keys, parent).len() == 0 {
        None
    } else {
        Some(plural_node_of(keys, parent))
    }
}

/// The base form when the key names one plural category, the key otherwise.
/// The parent is looked up in `tree` first, then in `base`.
pub open spec fn depluralized(
    key: Seq<char>,
    tree: Option<Seq<Seq<char>>>,
    base: Option<Seq<Seq<char>>>,
) -> Seq<char> {
    if !is_category(last_key_part_of(key)) {
        key
    } else {
        match parent_key_of(key) {
            None => key,
            Some(parent) => {
                let first = match tree {
                    Some(keys) => plural_lookup(keys, parent),
                    None => None,
                };
                let second = match base {
                    Some(keys) => plural_lookup(keys, parent),
                    None => None,
                };
                if first == Some(true) || (first is None && second == Some(true)) {
                    parent
                } else {
                    key
                }
            },
        }
    }
}

/// The keys of a tree that may be absent.
pub open spec fn keys_in(tree: Option<&LocaleTree>) -> Option<Seq<Seq<char>>> {
    match tree {
        Some(t) => Some(t.keys()),
        None => None,
    }
}

fn look_up(tree: Option<&LocaleTree>, parent: &str) -> (r: Option<bool>)
    requires
        tree matches Some(t) ==> t.wf(),
    ensures
        r == match keys_in(tree) {
            Some(keys) => plural_lookup(keys, parent@),
            None => None,
        },
{
    match tree {
        Some(t) => {
            let children = t.children(parent);
            assert(texts(children@).len() == children.len());
            if children.len() == 0 {
                None
            } else {
                Some(t.is_plural_node(parent))
            }
        },
        None => None,
    }
}

/// The base form when the key names one plural category, the key otherwise.
pub fn depluralize_key(key: &str, tree: Option<&LocaleTree>, base: Option<&LocaleTree>) -> (out:
    String)
    requires
        tree matches Some(t) ==> t.wf(),
        base matches Some(t) ==> t.wf(),
    ensures
        out@ == depluralized(key@, keys_in(tree), keys_in(base)),
{
    if !category(&last_key_part(key)) {
        return key.to_owned();
    }
    match parent_key(key) {
        None => key.to_owned(),
        Some(parent) => {
            let plural = match look_up(tree, parent) {
                Some(b) => b,
                None => match look_up(base, parent) {
                    Some(b) => b,
                    None => false,
                },
            };
            if plural {
                parent.to_owned()
            } else {
                key.to_owned()
            }
        },
    }
}

} // verus!
