//! Regular expressions over bytes, from the crate `regex`.
use regex::bytes::Regex;
use vstd::prelude::*;

verus! {

/// A compiled regular expression over bytes, of the crate `regex`.
#[verifier::external_type_specification]
#[verifier::external_body]
pub struct ExRegex(Regex);

/// The source that a regular expression was compiled from.
pub uninterp spec fn source_of(re: Regex) -> Seq<char>;

/// `Regex::new` of the crate `regex`, for bytes, accepts the source.
pub uninterp spec fn compiles(source: Seq<char>) -> bool;

/// What the groups of the leftmost match at or after `at` stand for, as places
/// in the bytes; group 0 is the whole match.
pub uninterp spec fn groups_at(source: Seq<char>, bytes: Seq<u8>, at: int) -> Option<
    Seq<Option<(int, int)>>,
>;

/// What the groups of each match stand for, one match behind the other.
pub uninterp spec fn all_groups(source: Seq<char>, bytes: Seq<u8>) -> Seq<Seq<Option<(int, int)>>>;

/// The regular expression matches somewhere in the bytes.
pub uninterp spec fn matches_in(source: Seq<char>, bytes: Seq<u8>) -> bool;

/// Places in bytes as they are handed out.
pub open spec fn spans(v: Seq<Option<(usize, usize)>>) -> Seq<Option<(int, int)>> {
    Seq::new(
        v.len(),
        |i: int|
            match v[i] {
                Some((a, b)) => Some((a as int, b as int)),
                None => None,
            },
    )
}

/// Places of several matches as they are handed out.
pub open spec fn span_lists(v: Seq<Vec<Option<(usize, usize)>>>) -> Seq<
    Seq<Option<(int, int)>>,
> {
    Seq::new(v.len(), |i: int| spans(v[i]@))
}

/// Every group that takes part stands for a stretch of the bytes.
pub open spec fn within_bytes(groups: Seq<Option<(int, int)>>, length: int) -> bool {
    forall|i: int|
        0 <= i < groups.len() && (#[trigger] groups[i]) is Some ==> 0 <= groups[i]->Some_0.0
            <= groups[i]->Some_0.1 <= length
}

/// Group `i`, where there is one and it takes part in the match.
pub open spec fn group(groups: Seq<Option<(int, int)>>, i: int) -> Option<(int, int)> {
    if 0 <= i < groups.len() {
        groups[i]
    } else {
        None
    }
}

/// Group `i`, where there is one and it takes part in the match.
pub fn group_at(groups: &Vec<Option<(usize, usize)>>, i: usize) -> (r: Option<(usize, usize)>)
    ensures
        group(spans(groups@), i as int) == match r {
            Some((a, b)) => Some((a as int, b as int)),
            None => None,
        },
{
    if i < groups.len() {
        assert(spans(groups@)[i as int] == match groups@[i as int] {
            Some((a, b)) => Some((a as int, b as int)),
            None => None,
        });
        groups[i]
    } else {
        None
    }
}

/// `Regex::new` of the crate `regex`, for bytes: the compiled source, where it
/// is a regular expression.
#[verifier::external_body]
pub(crate) fn compile(source: &str) -> (r: Option<Regex>)
    ensures
        match r {
            Some(re) => compiles(source@) && source_of(re) == source@,
            None => !compiles(source@),
        },
{
    Regex::new(source).ok()
}

/// `Regex::captures_at` of the crate `regex`, for bytes: the groups of the
/// leftmost match at or after `at`. The result is named, and every group that
/// takes part lies in the bytes.
#[verifier::external_body]
pub(crate) fn captures_at(re: &Regex, bytes: &[u8], at: usize) -> (r: Option<
    Vec<Option<(usize, usize)>>,
>)
    requires
        at <= bytes.len(),
    ensures
        match r {
            Some(v) => groups_at(source_of(*re), bytes@, at as int) == Some(spans(v@))
                && within_bytes(spans(v@), bytes@.len() as int),
            None => groups_at(source_of(*re), bytes@, at as int) is None,
        },
{
    let caps = re.captures_at(bytes, at)?;
    Some(caps.iter().map(|m| m.map(|m| (m.start(), m.end()))).collect())
}

/// `Regex::captures_iter` of the crate `regex`, for bytes: the groups of every
/// match. The result is named, and every group that takes part lies in the
/// bytes.
#[verifier::external_body]
pub(crate) fn captures_all(re: &Regex, bytes: &[u8]) -> (r: Vec<Vec<Option<(usize, usize)>>>)
    ensures
        span_lists(r@) == all_groups(source_of(*re), bytes@),
        forall|i: int|
            0 <= i < r@.len() ==> within_bytes(#[trigger] span_lists(r@)[i], bytes@.len() as int),
{
    re.captures_iter(bytes)
        .map(|caps| caps.iter().map(|m| m.map(|m| (m.start(), m.end()))).collect())
        .collect()
}

/// `Regex::is_match` of the crate `regex`, for bytes. The result is named.
#[verifier::external_body]
pub(crate) fn is_match(re: &Regex, bytes: &[u8]) -> (b: bool)
    ensures
        b == matches_in(source_of(*re), bytes@),
{
    re.is_match(bytes)
}

} // verus!
