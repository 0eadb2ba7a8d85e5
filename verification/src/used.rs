//! The keys that the sources of a project use.
use crate::pattern::PatternSet;
use crate::scan::{found_model, occurrences_model, FileScan, Occurrence, OccurrenceV};
use crate::text::{push_text, texts};
use crate::textmap::{items_at, TextMap};
use vstd::prelude::*;

verus! {

/// What the scan of a project found.
pub struct UsedKeys {
    /// The occurrences of each key, in the order of the files.
    pub keys: TextMap<Vec<Occurrence>>,
    /// The patterns of interpolated keys.
    pub patterns: PatternSet,
    pub pattern_sources: Vec<(String, Occurrence)>,
    /// Calls whose key cannot be determined at all.
    pub opaque: Vec<Occurrence>,
    pub files_scanned: usize,
    pub files_prefiltered: usize,
}

/// The texts that occurrences are found under.
pub open spec fn source_texts(v: Seq<(Seq<char>, OccurrenceV)>) -> Seq<Seq<char>> {
    Seq::new(v.len(), |i: int| v[i].0)
}

/// The occurrences found under `key` among the first `n`.
pub open spec fn found_under(
    found: Seq<(Seq<char>, OccurrenceV)>,
    n: int,
    key: Seq<char>,
) -> Seq<OccurrenceV>
    decreases n,
{
    if n <= 0 {
        Seq::empty()
    } else if found[n - 1].0 == key {
        found_under(found, n - 1, key).push(found[n - 1].1)
    } else {
        found_under(found, n - 1, key)
    }
}

/// The occurrences of a key.
pub open spec fn occurrences_at(m: Map<Seq<char>, Vec<Occurrence>>, key: Seq<char>) -> Seq<
    OccurrenceV,
> {
    occurrences_model(items_at(m, key))
}

impl UsedKeys {
    /// The patterns are those of the sources, and every key has an occurrence.
    pub open spec fn wf(&self) -> bool {
        &&& self.patterns@ == source_texts(found_model(self.pattern_sources@))
        &&& forall|k: Seq<char>| #[trigger] self.keys@.contains_key(k) ==> self.keys@[k].len() > 0
    }

    /// Gathers what the scans of single files, merged in the order of the
    /// files, found.
    pub fn gather(scan: FileScan, files_scanned: usize, files_prefiltered: usize) -> (used: UsedKeys)
        ensures
            used.wf(),
            forall|k: Seq<char>| #[trigger]
                occurrences_at(used.keys@, k) == found_under(
                    scan@.keys,
                    scan@.keys.len() as int,
                    k,
                ),
            found_model(used.pattern_sources@) == scan@.patterns,
            occurrences_model(used.opaque@) == scan@.opaque,
            used.files_scanned == files_scanned,
            used.files_prefiltered == files_prefiltered,
    {
        let ghost found = scan@.keys;
        let FileScan { keys: list, patterns: pattern_sources, opaque } = scan;
        let mut keys: TextMap<Vec<Occurrence>> = TextMap::new();
        let mut i: usize = 0;
        assert forall|k: Seq<char>| #[trigger] occurrences_at(keys@, k) == found_under(
            found,
            0,
            k,
        ) by {
            assert(occurrences_at(keys@, k) =~= Seq::empty());
        }
        while i < list.len()
            invariant
                i <= list.len(),
                found == found_model(list@),
                forall|k: Seq<char>| #[trigger]
                    occurrences_at(keys@, k) == found_under(found, i as int, k),
                forall|k: Seq<char>| #[trigger] keys@.contains_key(k) ==> keys@[k].len() > 0,
            decreases list.len() - i,
        {
            let ghost before = keys@;
            let (key, occurrence) = &list[i];
            assert(found[i as int] == (key@, occurrence@));
            let copy = occurrence.clone();
            keys.push_item(key.clone(), copy);
            proof {
                assert forall|k: Seq<char>| #[trigger] occurrences_at(keys@, k) == found_under(
                    found,
                    i + 1,
                    k,
                ) by {
                    assert(occurrences_at(before, k) == found_under(found, i as int, k));
                    if k == key@ {
                        assert(occurrences_at(keys@, k) =~= occurrences_at(before, k).push(
                            occurrence@,
                        ));
                    } else {
                        assert(items_at(keys@, k) == items_at(before, k));
                    }
                }
                assert forall|k: Seq<char>| #[trigger] keys@.contains_key(k) implies keys@[k].len()
                    > 0 by {
                    assert(items_at(keys@, k).len() > 0) by {
                        if k != key@ {
                            assert(before.contains_key(k));
                            assert(items_at(keys@, k) == items_at(before, k));
                        }
                    }
                }
            }
            i = i + 1;
        }
        let mut sources: Vec<String> = Vec::new();
        let mut j: usize = 0;
        assert(texts(sources@) =~= source_texts(found_model(pattern_sources@)).take(0));
        while j < pattern_sources.len()
            invariant
                j <= pattern_sources.len(),
                texts(sources@) == source_texts(found_model(pattern_sources@)).take(j as int),
            decreases pattern_sources.len() - j,
        {
            let ghost all = source_texts(found_model(pattern_sources@));
            push_text(&mut sources, pattern_sources[j].0.clone());
            assert(all.take(j + 1) =~= all.take(j as int).push(all[j as int]));
            j = j + 1;
        }
        let ghost all = source_texts(found_model(pattern_sources@));
        assert(all.take(j as int) =~= all);
        let patterns = PatternSet::new(&sources);
        UsedKeys { keys, patterns, pattern_sources, opaque, files_scanned, files_prefiltered }
    }

    /// Whether the sources use the key.
    pub fn key_used(&self, key: &str) -> (b: bool)
        ensures
            b == self.keys@.contains_key(key@),
    {
        self.keys.contains(key)
    }
}

} // verus!
