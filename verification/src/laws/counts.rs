//! What is counted: the uses of keys, the data of a project, and the lines of a
//! file.
use crate::data::load::{LeafV, LocaleTree};
use crate::data::store::Store;
use crate::init::verify::{files_of, files_upto, verification};
use crate::lineindex::{
    breaks_before, counts_a_prefix, line_begin_of, line_number_of, line_start, packed, starts_facts,
    starts_prefix, starts_upto,
};
use crate::scan::{found_model, occurrences_model, FileScan, OccurrenceV};
use crate::stats::{forest_totals, leaf_totals, TotalsV};
use crate::text::{distinct, distinct_is_distinct, sorted_has_no_duplicates, texts};
use crate::used::{found_under, occurrences_at, UsedKeys};
use vstd::prelude::*;

verus! {

// -------------------------------------------------------------------------- uses

/// The uses of a key are the occurrences that were found under it, in their
/// order.
pub proof fn a_key_has_the_uses_that_were_found_under_it(
    found: Seq<(Seq<char>, OccurrenceV)>,
    n: int,
    key: Seq<char>,
    occ: OccurrenceV,
)
    requires
        0 <= n <= found.len(),
    ensures
        found_under(found, n, key).contains(occ) <==> exists|i: int|
            0 <= i < n && #[trigger] found[i] == (key, occ),
        found_under(found, n, key).len() > 0 <==> exists|i: int|
            0 <= i < n && (#[trigger] found[i]).0 == key,
    decreases n,
{
    if n > 0 {
        a_key_has_the_uses_that_were_found_under_it(found, n - 1, key, occ);
        let before = found_under(found, n - 1, key);
        let now = found_under(found, n, key);
        if now.len() > before.len() {
            assert(now[before.len() as int] == found[n - 1].1);
            if before.contains(occ) {
                assert(now[before.index_of(occ)] == occ);
            }
            if now.contains(occ) && occ != found[n - 1].1 {
                assert(before[now.index_of(occ)] == occ);
            }
        }
    }
}

/// A key counts as used exactly where the scan found it.
pub proof fn a_key_is_used_exactly_where_it_was_found(
    used: &UsedKeys,
    found: Seq<(Seq<char>, OccurrenceV)>,
    key: Seq<char>,
)
    requires
        used.wf(),
        occurrences_at(used.keys@, key) == found_under(found, found.len() as int, key),
    ensures
        used.keys@.contains_key(key) <==> exists|i: int|
            0 <= i < found.len() && (#[trigger] found[i]).0 == key,
{
    a_key_has_the_uses_that_were_found_under_it(found, found.len() as int, key, arbitrary());
    if used.keys@.contains_key(key) {
        assert(used.keys@[key].len() > 0);
        assert(occurrences_at(used.keys@, key).len() > 0);
    }
}

/// What a scan found is what is used: its keys with their uses, its patterns
/// and its calls with unknown keys.
pub proof fn what_a_scan_found_is_used(
    scan: FileScan,
    scanned: usize,
    left_out: usize,
    used: UsedKeys,
    key: Seq<char>,
    occ: OccurrenceV,
)
    requires
        call_ensures(UsedKeys::gather, (scan, scanned, left_out), used),
    ensures
        used.keys@.contains_key(key) <==> exists|i: int|
            0 <= i < scan@.keys.len() && (#[trigger] scan@.keys[i]).0 == key,
        occurrences_at(used.keys@, key).contains(occ) <==> exists|i: int|
            0 <= i < scan@.keys.len() && #[trigger] scan@.keys[i] == (key, occ),
        found_model(used.pattern_sources@) == scan@.patterns,
        occurrences_model(used.opaque@) == scan@.opaque,
{
    let found = scan@.keys;
    assert(occurrences_at(used.keys@, key) == found_under(found, found.len() as int, key));
    a_key_has_the_uses_that_were_found_under_it(found, found.len() as int, key, occ);
    a_key_is_used_exactly_where_it_was_found(&used, found, key);
}

// -------------------------------------------------------------------------- data

/// Each leaf adds one key, its levels and the characters of its value.
pub proof fn each_leaf_adds_to_the_totals(before: TotalsV, leaves: Seq<LeafV>, n: int)
    requires
        0 < n <= leaves.len(),
    ensures
        ({
            let a = leaf_totals(before, leaves, n - 1);
            let b = leaf_totals(before, leaves, n);
            &&& b.keys - a.keys == 1
            &&& b.segments - a.segments == leaves[n - 1].depth
            &&& b.chars - a.chars == leaves[n - 1].value.displayed().len()
            &&& leaf_totals(before, leaves, 0) == before
        }),
{
}

proof fn leaves_are_counted(before: TotalsV, leaves: Seq<LeafV>, n: int)
    requires
        0 <= n <= leaves.len(),
    ensures
        leaf_totals(before, leaves, n).keys == before.keys + n,
    decreases n,
{
    if n > 0 {
        leaves_are_counted(before, leaves, n - 1);
    }
}

/// The number of keys of the first `n` locales, each as many times as it is
/// asked for.
pub open spec fn key_count(store: &Store, locales: Seq<Seq<char>>, n: int) -> int
    decreases n,
{
    if n <= 0 {
        0
    } else {
        key_count(store, locales, n - 1) + if store.trees@.contains_key(locales[n - 1]) {
            store.trees@[locales[n - 1]].leaves.len() as int
        } else {
            0
        }
    }
}

/// The keys of a project are all the leaves of all its locales.
pub proof fn every_leaf_of_every_locale_is_counted(store: &Store, locales: Seq<Seq<char>>, n: int)
    requires
        0 <= n <= locales.len(),
    ensures
        forest_totals(store, locales, n).keys == key_count(store, locales, n),
    decreases n,
{
    if n > 0 {
        every_leaf_of_every_locale_is_counted(store, locales, n - 1);
        if store.trees@.contains_key(locales[n - 1]) {
            let data = store.trees@[locales[n - 1]].data();
            leaves_are_counted(
                forest_totals(store, locales, n - 1),
                data,
                data.len() as int,
            );
        }
    }
}

// ------------------------------------------------------------------------- lines

/// Between two offsets of one line no line break is counted, and each line
/// break starts a new line.
pub proof fn a_line_break_starts_a_new_line(bytes: Seq<u8>, o: int)
    requires
        0 < o <= bytes.len(),
    ensures
        bytes[o - 1] == 10 ==> breaks_before(bytes, o) == breaks_before(bytes, o - 1) + 1
            && line_start(bytes, o) == o,
        bytes[o - 1] != 10 ==> breaks_before(bytes, o) == breaks_before(bytes, o - 1)
            && line_start(bytes, o) == line_start(bytes, o - 1),
        breaks_before(bytes, 0) == 0,
        line_start(bytes, 0) == 0,
{
}

/// The number of a line is one more than the line breaks before it, and a place
/// is counted from the start of its line.
pub proof fn a_line_is_numbered_by_the_breaks_before_it(bytes: Seq<u8>, o: int)
    requires
        bytes.len() <= u32::MAX,
        0 <= o <= bytes.len(),
    ensures
        line_number_of(bytes, o) == breaks_before(bytes, o) + 1,
        line_begin_of(bytes, o) == line_start(bytes, o),
{
    let n = bytes.len() as int;
    let all = starts_upto(bytes, n);
    let some = starts_upto(bytes, o);
    starts_facts(bytes, n);
    starts_facts(bytes, o);
    starts_prefix(bytes, o, n);
    let k = some.len() as int;
    assert forall|i: int| 0 <= i < k implies packed(#[trigger] all[i]) <= packed(o) by {
        assert(all[i] == some[i]);
    }
    assert forall|i: int| k <= i < all.len() implies packed(#[trigger] all[i]) > packed(o) by {
        assert(all[i] > o);
    }
    counts_a_prefix(all, o, k, all.len() as int);
    assert(all[k - 1] == some[k - 1]);
}

// -------------------------------------------------------------------- read back

proof fn files_are_gathered(
    trees: Map<Seq<char>, LocaleTree>,
    order: Seq<Seq<char>>,
    n: int,
    file: Seq<char>,
)
    requires
        0 <= n <= order.len(),
    ensures
        files_upto(trees, order, n).contains(file) <==> exists|i: int|
            0 <= i < n && trees[#[trigger] order[i]].file_locales.order().contains(file),
    decreases n,
{
    if n > 0 {
        files_are_gathered(trees, order, n - 1, file);
        let before = files_upto(trees, order, n - 1);
        let own = trees[order[n - 1]].file_locales.order();
        let now = files_upto(trees, order, n);
        if before.contains(file) {
            assert(now[before.index_of(file)] == file);
        }
        if own.contains(file) {
            assert(now[before.len() + own.index_of(file)] == file);
        }
        if now.contains(file) {
            let k = now.index_of(file);
            if k < before.len() {
                assert(before[k] == file);
            } else {
                assert(own[k - before.len()] == file);
            }
        }
    }
}

/// What a config reads is counted: the keys of all its locales, and each file
/// that one of its trees comes from, once. A config that does not load reads
/// nothing.
pub proof fn what_is_read_is_counted(loaded: &Result<Store, String>, file: Seq<char>)
    ensures
        loaded is Err <==> verification(loaded).error is Some,
        loaded is Err ==> verification(loaded).key_count == 0 && verification(loaded).files_read
            == 0 && verification(loaded).locales.len() == 0,
        loaded matches Ok(store) ==> {
            let order = store.trees.order();
            &&& verification(loaded).locales == texts(store.locales@)
            &&& verification(loaded).files_read == files_of(store).len()
            &&& files_of(store).no_duplicates()
            &&& files_of(store).contains(file) <==> exists|i: int|
                0 <= i < order.len() && store.trees@[#[trigger] order[i]].file_locales.order().contains(
                    file,
                )
            &&& key_count(store, texts(store.locales@), store.locales.len() as int) <= usize::MAX
                ==> verification(loaded).key_count == key_count(
                store,
                texts(store.locales@),
                store.locales.len() as int,
            )
        },
{
    if let Ok(store) = loaded {
        let order = store.trees.order();
        let n = order.len() as int;
        let all = files_upto(store.trees@, order, n);
        files_are_gathered(store.trees@, order, n, file);
        distinct_is_distinct(all);
        sorted_has_no_duplicates(distinct(all));
        let wanted = texts(store.locales@);
        assert(wanted.len() == store.locales.len());
        every_leaf_of_every_locale_is_counted(store, wanted, wanted.len() as int);
    }
}

} // verus!
