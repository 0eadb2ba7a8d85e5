//! Every occurrence of every used key, as text.
use crate::scan::{found_model, occurrences_model, Occurrence, OccurrenceV};
use crate::text::{decimal, decimal_text};
use crate::used::{occurrences_at, UsedKeys};
use vstd::prelude::*;

verus! {

/// The lines of the first `n` occurrences of a key.
pub open spec fn occurrence_lines(v: Seq<OccurrenceV>, n: int) -> Seq<char>
    decreases n,
{
    if n <= 0 {
        Seq::empty()
    } else {
        occurrence_lines(v, n - 1) + ("  "@ + v[n - 1].path + ":"@ + decimal(
            v[n - 1].line_num as nat,
        ) + ":"@ + decimal(v[n - 1].line_pos as nat) + "\n"@)
    }
}

/// The lines of the first `n` keys.
pub open spec fn key_lines(
    order: Seq<Seq<char>>,
    keys: Map<Seq<char>, Vec<Occurrence>>,
    n: int,
) -> Seq<char>
    decreases n,
{
    if n <= 0 {
        Seq::empty()
    } else {
        let own = occurrences_at(keys, order[n - 1]);
        key_lines(order, keys, n - 1) + order[n - 1] + "\n"@ + occurrence_lines(
            own,
            own.len() as int,
        )
    }
}

/// The lines of the first `n` patterns.
pub open spec fn pattern_lines(v: Seq<(Seq<char>, OccurrenceV)>, n: int) -> Seq<char>
    decreases n,
{
    if n <= 0 {
        Seq::empty()
    } else {
        pattern_lines(v, n - 1) + (v[n - 1].0 + "  (pattern)\n  "@ + v[n - 1].1.path + ":"@
            + decimal(v[n - 1].1.line_num as nat) + "\n"@)
    }
}

/// The lines of the first `n` opaque calls.
pub open spec fn opaque_lines(v: Seq<OccurrenceV>, n: int) -> Seq<char>
    decreases n,
{
    if n <= 0 {
        Seq::empty()
    } else {
        opaque_lines(v, n - 1) + ("(opaque)  "@ + v[n - 1].path + ":"@ + decimal(
            v[n - 1].line_num as nat,
        ) + "\n"@)
    }
}

/// The key, then one indented `path:line:column` per occurrence, then the key
/// patterns and the opaque calls.
pub fn to_text(used: &UsedKeys) -> (out: String)
    ensures
        out@ == key_lines(used.keys.order(), used.keys@, used.keys.order().len() as int)
            + pattern_lines(
            found_model(used.pattern_sources@),
            used.pattern_sources.len() as int,
        ) + opaque_lines(occurrences_model(used.opaque@), used.opaque.len() as int),
{
    let mut out = String::new();
    let n = used.keys.len();
    let ghost order = used.keys.order();
    let mut i: usize = 0;
    assert(out@ =~= key_lines(order, used.keys@, 0));
    while i < n
        invariant
            i <= n == order.len(),
            order == used.keys.order(),
            out@ == key_lines(order, used.keys@, i as int),
        decreases n - i,
    {
        let key = used.keys.key_at(i);
        let list = used.keys.value_at(i);
        let ghost own = occurrences_at(used.keys@, key@);
        assert(own =~= occurrences_model(list@));
        let ghost before = out@;
        out.append(key);
        out.append("\n");
        let ghost head = out@;
        let mut k: usize = 0;
        assert(head + occurrence_lines(own, 0) =~= head);
        while k < list.len()
            invariant
                k <= list.len(),
                own == occurrences_model(list@),
                out@ == head + occurrence_lines(own, k as int),
            decreases list.len() - k,
        {
            let o = &list[k];
            assert(own[k as int] == o@);
            out.append("  ");
            out.append(&o.path);
            out.append(":");
            out.append(&decimal_text(o.line_num as u64));
            out.append(":");
            out.append(&decimal_text(o.line_pos as u64));
            out.append("\n");
            k = k + 1;
            assert(out@ =~= head + occurrence_lines(own, k as int));
        }
        i = i + 1;
        assert(out@ =~= key_lines(order, used.keys@, i as int));
    }
    let ghost keys = out@;
    let ghost patterns = found_model(used.pattern_sources@);
    let mut p: usize = 0;
    assert(keys + pattern_lines(patterns, 0) =~= keys);
    while p < used.pattern_sources.len()
        invariant
            p <= used.pattern_sources.len(),
            patterns == found_model(used.pattern_sources@),
            out@ == keys + pattern_lines(patterns, p as int),
        decreases used.pattern_sources.len() - p,
    {
        let (pattern, o) = &used.pattern_sources[p];
        assert(patterns[p as int] == (pattern@, o@));
        out.append(pattern);
        out.append("  (pattern)\n  ");
        out.append(&o.path);
        out.append(":");
        out.append(&decimal_text(o.line_num as u64));
        out.append("\n");
        p = p + 1;
        assert(out@ =~= keys + pattern_lines(patterns, p as int));
    }
    let ghost listed = out@;
    let ghost opaque = occurrences_model(used.opaque@);
    let mut q: usize = 0;
    assert(listed + opaque_lines(opaque, 0) =~= listed);
    while q < used.opaque.len()
        invariant
            q <= used.opaque.len(),
            opaque == occurrences_model(used.opaque@),
            out@ == listed + opaque_lines(opaque, q as int),
        decreases used.opaque.len() - q,
    {
        let o = &used.opaque[q];
        assert(opaque[q as int] == o@);
        out.append("(opaque)  ");
        out.append(&o.path);
        out.append(":");
        out.append(&decimal_text(o.line_num as u64));
        out.append("\n");
        q = q + 1;
        assert(out@ =~= listed + opaque_lines(opaque, q as int));
    }
    out
}

} // verus!
