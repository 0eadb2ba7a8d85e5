//! Which locales a run goes over.
use crate::session::{
    first_refusal, is_valid_locale, named_locales, resolved_locales,
    the_locales_asked_for_are_run_over, with_base_named,
};
use vstd::prelude::*;

verus! {

/// The request asks for the locale, by its name or, for the base locale, as
/// `base`.
pub open spec fn asks_for(
    requested: Seq<Seq<char>>,
    base: Seq<char>,
    locale: Seq<char>,
) -> bool {
    (requested.contains(locale) && locale != "base"@) || (locale == base && requested.contains(
        "base"@,
    ))
}

proof fn names_with_base(requested: Seq<Seq<char>>, base: Seq<char>, locale: Seq<char>)
    ensures
        with_base_named(requested, base).contains(locale) <==> asks_for(requested, base, locale),
{
    let v = with_base_named(requested, base);
    if v.contains(locale) {
        let i = v.index_of(locale);
        assert(requested.contains(requested[i]));
    }
    if requested.contains(locale) && locale != "base"@ {
        assert(v[requested.index_of(locale)] == locale);
    }
    if locale == base && requested.contains("base"@) {
        assert(v[requested.index_of("base"@)] == locale);
    }
}

/// A locale can be run over: it is configured, and its name is one of a locale.
pub open spec fn can_be_run(locale: Seq<char>, configured: Seq<Seq<char>>) -> bool {
    is_valid_locale(locale) && configured.contains(locale)
}

proof fn refusals_are_found(
    locales: Seq<Seq<char>>,
    from: int,
    configured: Seq<Seq<char>>,
)
    requires
        0 <= from <= locales.len(),
    ensures
        first_refusal(locales, from, configured) is None <==> forall|i: int|
            from <= i < locales.len() ==> can_be_run(#[trigger] locales[i], configured),
    decreases locales.len() - from,
{
    if from < locales.len() {
        refusals_are_found(locales, from + 1, configured);
        if can_be_run(locales[from], configured) && first_refusal(
            locales,
            from + 1,
            configured,
        ) is None {
            assert forall|i: int| from <= i < locales.len() implies can_be_run(
                #[trigger] locales[i],
                configured,
            ) by {}
        }
    }
}

/// A request that names no locale, or `all` alone, stands for every configured
/// locale. Any other request is granted exactly where each locale that it asks
/// for can be run over, and then stands for those and no other.
pub proof fn a_request_stands_for_the_locales_that_it_asks_for(
    requested: Seq<Seq<char>>,
    base: Seq<char>,
    configured: Seq<Seq<char>>,
    locale: Seq<char>,
)
    ensures
        ({
            let granted = resolved_locales(requested, base, configured);
            if requested.len() == 0 || (requested.len() == 1 && requested[0] == "all"@) {
                granted == Ok::<Seq<Seq<char>>, Seq<char>>(configured)
            } else {
                &&& granted is Ok <==> forall|l: Seq<char>| #[trigger]
                    asks_for(requested, base, l) ==> can_be_run(l, configured)
                &&& granted matches Ok(v) ==> (v.contains(locale) <==> asks_for(
                    requested,
                    base,
                    locale,
                ))
            }
        }),
{
    if requested.len() == 0 || (requested.len() == 1 && requested[0] == "all"@) {
        if requested.len() == 1 {
            assert(requested =~= seq!["all"@]);
        }
    } else {
        assert(requested != seq!["all"@]);
        let named = named_locales(requested, base);
        the_locales_asked_for_are_run_over(requested, base);
        assert forall|l: Seq<char>| #[trigger] named.contains(l) <==> asks_for(
            requested,
            base,
            l,
        ) by {
            names_with_base(requested, base, l);
        }
        refusals_are_found(named, 0, configured);
        if first_refusal(named, 0, configured) is None {
            assert forall|l: Seq<char>| #[trigger] asks_for(requested, base, l) implies can_be_run(
                l,
                configured,
            ) by {
                assert(named.contains(l));
                let i = named.index_of(l);
                assert(can_be_run(named[i], configured));
            }
        }
        if forall|l: Seq<char>| #[trigger]
            asks_for(requested, base, l) ==> can_be_run(l, configured) {
            assert forall|i: int| 0 <= i < named.len() implies can_be_run(
                #[trigger] named[i],
                configured,
            ) by {
                assert(named.contains(named[i]));
                assert(asks_for(requested, base, named[i]));
            }
        }
        assert(named.contains(locale) <==> asks_for(requested, base, locale));
    }
}

} // verus!
