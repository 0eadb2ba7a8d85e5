//! The statistics header.
//!
//! The averages are integer divisions, but for the mean number of segments,
//! which is printed with one decimal.
use crate::data::load::{leaves_model, LeafV};
use crate::data::store::Store;
use crate::text::{chars_of, decimal, decimal_text, join, join_of, texts};
use vstd::prelude::*;

verus! {

/// How much data there is.
pub struct ForestStats {
    /// Locale names, comma-joined, base locale first.
    pub locales: String,
    /// Total leaf count across all locales.
    pub key_count: usize,
    pub locale_count: usize,
    /// `key_count / locale_count`, integer division.
    pub per_locale_avg: usize,
    /// Mean segment count per leaf, with one decimal.
    pub key_segments_avg: String,
    /// Mean value length in characters, integer division.
    pub value_chars_avg: usize,
}

/// What the leaves of a project add up to. Each count stops at the largest
/// machine number.
#[derive(Clone, Copy)]
pub struct Totals {
    pub keys: usize,
    pub segments: usize,
    pub chars: usize,
}

/// What leaves add up to.
pub struct TotalsV {
    pub keys: int,
    pub segments: int,
    pub chars: int,
}

/// What the first `n` leaves add to `before`.
pub open spec fn leaf_totals(before: TotalsV, leaves: Seq<LeafV>, n: int) -> TotalsV
    decreases n,
{
    if n <= 0 {
        before
    } else {
        let t = leaf_totals(before, leaves, n - 1);
        TotalsV {
            keys: t.keys + 1,
            segments: t.segments + leaves[n - 1].depth,
            chars: t.chars + leaves[n - 1].value.displayed().len(),
        }
    }
}

/// What the first `n` locales add up to.
pub open spec fn forest_totals(store: &Store, locales: Seq<Seq<char>>, n: int) -> TotalsV
    decreases n,
{
    if n <= 0 {
        TotalsV { keys: 0, segments: 0, chars: 0 }
    } else {
        let t = forest_totals(store, locales, n - 1);
        if store.trees@.contains_key(locales[n - 1]) {
            let data = store.trees@[locales[n - 1]].data();
            leaf_totals(t, data, data.len() as int)
        } else {
            t
        }
    }
}

/// A count as a machine number holds it.
pub open spec fn capped(n: int) -> int {
    if n > usize::MAX {
        usize::MAX as int
    } else {
        n
    }
}

impl Totals {
    /// The counts are those of `t`, as machine numbers hold them.
    pub open spec fn counts(self, t: TotalsV) -> bool {
        &&& t.keys >= 0 && t.segments >= 0 && t.chars >= 0
        &&& self.keys == capped(t.keys)
        &&& self.segments == capped(t.segments)
        &&& self.chars == capped(t.chars)
    }
}

/// Counts the leaves of the locales, their segments and the characters of
/// their values.
pub fn count_leaves(store: &Store, locales: &Vec<String>) -> (t: Totals)
    ensures
        t.counts(forest_totals(store, texts(locales@), locales.len() as int)),
{
    let ghost names = texts(locales@);
    let mut t = Totals { keys: 0, segments: 0, chars: 0 };
    let mut i: usize = 0;
    while i < locales.len()
        invariant
            i <= locales.len(),
            names == texts(locales@),
            t.counts(forest_totals(store, names, i as int)),
        decreases locales.len() - i,
    {
        let ghost before = forest_totals(store, names, i as int);
        assert(names[i as int] == locales@[i as int]@);
        if let Some(tree) = store.tree(&locales[i]) {
            let ghost data = leaves_model(tree.leaves@);
            let mut k: usize = 0;
            while k < tree.leaves.len()
                invariant
                    k <= tree.leaves.len(),
                    data == leaves_model(tree.leaves@),
                    t.counts(leaf_totals(before, data, k as int)),
                decreases tree.leaves.len() - k,
            {
                let leaf = &tree.leaves[k];
                assert(data[k as int] == leaf@);
                let shown = chars_of(&leaf.value.to_display_string());
                t = Totals {
                    keys: t.keys.saturating_add(1),
                    segments: t.segments.saturating_add(leaf.depth as usize),
                    chars: t.chars.saturating_add(shown.len()),
                };
                k = k + 1;
            }
        }
        i = i + 1;
    }
    t
}

/// The statistics of the locales. `mean_segments` is the mean number of
/// segments per leaf, with one decimal; without leaves it is not asked for.
pub fn forest_stats(store: &Store, locales: &Vec<String>, mean_segments: String) -> (stats:
    ForestStats)
    ensures
        ({
            let t = forest_totals(store, texts(locales@), locales.len() as int);
            &&& stats.locales@ == join_of(texts(locales@), ", "@)
            &&& stats.key_count == capped(t.keys)
            &&& stats.locale_count == if locales.len() == 0 {
                1
            } else {
                locales.len() as int
            }
            &&& stats.per_locale_avg == capped(t.keys) / stats.locale_count as int
            &&& stats.key_segments_avg@ == if t.keys == 0 {
                "0.0"@
            } else {
                mean_segments@
            }
            &&& stats.value_chars_avg == if t.keys == 0 {
                0
            } else {
                capped(t.chars) / capped(t.keys)
            }
        }),
{
    let counted = count_leaves(store, locales);
    let locale_count: usize = if locales.len() == 0 {
        1
    } else {
        locales.len()
    };
    ForestStats {
        locales: join(locales, ", "),
        key_count: counted.keys,
        locale_count,
        per_locale_avg: counted.keys / locale_count,
        key_segments_avg: if counted.keys == 0 {
            "0.0".to_owned()
        } else {
            mean_segments
        },
        value_chars_avg: if counted.keys == 0 {
            0
        } else {
            counted.chars / counted.keys
        },
    }
}

impl ForestStats {
    /// The header as one line.
    pub fn to_text(&self) -> (out: String)
        ensures
            out@ == decimal(self.key_count as nat) + " keys in "@ + decimal(
                self.locale_count as nat,
            ) + " locales ("@ + self.locales@ + "), "@ + decimal(self.per_locale_avg as nat)
                + " keys per locale, "@ + self.key_segments_avg@ + " segments per key, "@
                + decimal(self.value_chars_avg as nat) + " characters per value"@,
    {
        let mut out = decimal_text(self.key_count as u64);
        out.append(" keys in ");
        out.append(&decimal_text(self.locale_count as u64));
        out.append(" locales (");
        out.append(&self.locales);
        out.append("), ");
        out.append(&decimal_text(self.per_locale_avg as u64));
        out.append(" keys per locale, ");
        out.append(&self.key_segments_avg);
        out.append(" segments per key, ");
        out.append(&decimal_text(self.value_chars_avg as u64));
        out.append(" characters per value");
        out
    }
}

} // verus!
