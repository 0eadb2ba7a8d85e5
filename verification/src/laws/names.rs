//! How the names of constants are written in keys.
use crate::keys::{
    ascii_underscore_of, breaks_acronym, breaks_word, capital_run, needs_underscore, snake_of,
    split_acronyms, split_words,
};
use crate::text::{
    find_from_of, find_is_first, is_lower, is_upper, occurs_at, replace_of, small, swap_char_of,
};
use vstd::prelude::*;

verus! {

/// A word: one capital, and small letters behind it.
pub open spec fn is_word(s: Seq<char>) -> bool {
    &&& s.len() >= 2
    &&& is_upper(s[0])
    &&& forall|i: int| 1 <= i < s.len() ==> is_lower(#[trigger] s[i])
}

/// The words from the one at `k` on, one behind the other.
pub open spec fn together(words: Seq<Seq<char>>, k: int) -> Seq<char>
    decreases words.len() - k,
{
    if k < 0 || k >= words.len() {
        Seq::empty()
    } else {
        words[k] + together(words, k + 1)
    }
}

/// The words from the one at `k` on, each behind an underscore.
pub open spec fn set_apart(words: Seq<Seq<char>>, k: int) -> Seq<char>
    decreases words.len() - k,
{
    if k < 0 || k >= words.len() {
        Seq::empty()
    } else {
        seq!['_'] + words[k] + set_apart(words, k + 1)
    }
}

/// A text of letters in which no capital and no digit follows a capital or a
/// digit.
spec fn is_loose(s: Seq<char>) -> bool {
    &&& forall|i: int| 0 <= i < s.len() ==> is_upper(#[trigger] s[i]) || is_lower(s[i])
    &&& forall|i: int| 0 <= i < s.len() - 1 && is_upper(#[trigger] s[i]) ==> is_lower(s[i + 1])
}

proof fn words_are_loose(words: Seq<Seq<char>>, k: int)
    requires
        0 <= k <= words.len(),
        forall|i: int| 0 <= i < words.len() ==> is_word(#[trigger] words[i]),
    ensures
        is_loose(together(words, k)),
        k < words.len() ==> together(words, k).len() > 0 && is_upper(together(words, k)[0]),
    decreases words.len() - k,
{
    if k < words.len() {
        words_are_loose(words, k + 1);
        let w = words[k];
        let rest = together(words, k + 1);
        let s = together(words, k);
        assert(is_word(w));
        let n = w.len() as int;
        assert forall|i: int| 0 <= i < s.len() implies is_upper(#[trigger] s[i]) || is_lower(
            s[i],
        ) by {
            if i < n {
                assert(s[i] == w[i]);
            } else {
                assert(s[i] == rest[i - n]);
            }
        }
        assert forall|i: int| 0 <= i < s.len() - 1 && is_upper(#[trigger] s[i]) implies is_lower(
            s[i + 1],
        ) by {
            if i < n {
                assert(s[i] == w[i]);
                assert(i == 0);
                assert(s[1] == w[1]);
            } else {
                assert(s[i] == rest[i - n] && s[i + 1] == rest[i + 1 - n]);
            }
        }
    }
}

proof fn no_acronym_is_split(s: Seq<char>, i: int)
    requires
        is_loose(s),
        0 <= i <= s.len(),
    ensures
        split_acronyms(s, i) == s.skip(i),
    decreases s.len() - i,
{
    if i < s.len() {
        assert(is_upper(s[i]) || is_lower(s[i]));
        assert(capital_run(s, i) <= i + 1) by {
            if is_upper(s[i]) {
                if i + 1 < s.len() {
                    assert(is_lower(s[i + 1]));
                }
                assert(capital_run(s, i + 1) == i + 1);
            }
        }
        no_acronym_is_split(s, i + 1);
        assert(seq![s[i]] + s.skip(i + 1) =~= s.skip(i));
    } else {
        assert(split_acronyms(s, i) =~= s.skip(i));
    }
}

proof fn words_are_split(s: Seq<char>, j: int, words: Seq<Seq<char>>, k: int, o: int)
    requires
        0 <= k < words.len(),
        forall|i: int| 0 <= i < words.len() ==> is_word(#[trigger] words[i]),
        0 <= o < words[k].len(),
        0 <= j <= s.len(),
        s.skip(j) == words[k].skip(o) + together(words, k + 1),
    ensures
        split_words(s, j) == words[k].skip(o) + set_apart(words, k + 1),
    decreases s.len() - j,
{
    let w = words[k];
    let rest = together(words, k + 1);
    let t = s.skip(j);
    assert(is_word(w));
    assert(t.len() == w.len() - o + rest.len());
    assert(s[j] == w[o]) by {
        assert(t[0] == s[j] && t[0] == w.skip(o)[0]);
    }
    if o < w.len() - 1 {
        assert(s[j + 1] == w[o + 1]) by {
            assert(t[1] == s[j + 1] && t[1] == w.skip(o)[1]);
        }
        assert(is_lower(w[o + 1]));
        assert(s.skip(j + 1) =~= w.skip(o + 1) + rest) by {
            assert(s.skip(j + 1) =~= t.skip(1));
        }
        words_are_split(s, j + 1, words, k, o + 1);
        assert(seq![w[o]] + (w.skip(o + 1) + set_apart(words, k + 1)) =~= w.skip(o) + set_apart(
            words,
            k + 1,
        ));
    } else if k + 1 < words.len() {
        let next = words[k + 1];
        assert(is_word(next));
        assert(is_lower(w[o]));
        let more = together(words, k + 2);
        assert(rest == next + more);
        assert(s[j + 1] == next[0]) by {
            assert(t[1] == s[j + 1]);
        }
        assert(breaks_word(s, j));
        assert(s.skip(j + 2) =~= next.skip(1) + more) by {
            assert(s.skip(j + 2) =~= t.skip(2));
        }
        words_are_split(s, j + 2, words, k + 1, 1);
        let tail = set_apart(words, k + 2);
        assert(seq![w[o], '_', next[0]] + (next.skip(1) + tail) =~= w.skip(o) + (seq!['_'] + next
            + tail));
    } else {
        assert(t.len() == 1);
        assert(s.len() == j + 1);
        assert(split_words(s, j + 1) =~= Seq::empty());
        assert(split_words(s, j) =~= w.skip(o) + set_apart(words, k + 1));
    }
}

proof fn there_is_no_colon(s: Seq<char>)
    requires
        forall|i: int| 0 <= i < s.len() ==> #[trigger] s[i] != ':',
    ensures
        replace_of(s, "::"@, "/"@) == s,
{
    reveal_strlit("::");
    find_is_first(s, "::"@, 0);
    if let Some(i) = find_from_of(s, "::"@, 0) {
        assert(s.subrange(i, i + 2)[0] == s[i]);
    }
}

proof fn no_dash_is_swapped(s: Seq<char>)
    requires
        forall|i: int| 0 <= i < s.len() ==> #[trigger] s[i] != '-',
    ensures
        swap_char_of(s, '-', '_') == s,
{
    assert(swap_char_of(s, '-', '_') =~= s);
}

proof fn words_hold_no_dash(words: Seq<Seq<char>>, k: int)
    requires
        0 <= k <= words.len(),
        forall|i: int| 0 <= i < words.len() ==> is_word(#[trigger] words[i]),
    ensures
        forall|i: int|
            0 <= i < set_apart(words, k).len() ==> #[trigger] set_apart(words, k)[i] != '-',
    decreases words.len() - k,
{
    if k < words.len() {
        words_hold_no_dash(words, k + 1);
        let w = words[k];
        let rest = set_apart(words, k + 1);
        let s = set_apart(words, k);
        assert(is_word(w));
        assert forall|i: int| 0 <= i < s.len() implies #[trigger] s[i] != '-' by {
            if 1 <= i <= w.len() {
                assert(s[i] == w[i - 1]);
            } else if i > w.len() {
                assert(s[i] == rest[i - 1 - w.len()]);
            }
        }
    }
}

/// The words of a name are set apart by underscores, and nothing else is
/// changed but its capitals.
pub proof fn words_are_set_apart(words: Seq<Seq<char>>)
    requires
        words.len() > 0,
        forall|i: int| 0 <= i < words.len() ==> is_word(#[trigger] words[i]),
    ensures
        snake_of(together(words, 0)) == words[0] + set_apart(words, 1),
        ascii_underscore_of(together(words, 0)) == (words[0] + set_apart(words, 1)).map_values(
            |c: char| small(c),
        ),
{
    let s = together(words, 0);
    words_are_loose(words, 0);
    assert forall|i: int| 0 <= i < s.len() implies #[trigger] s[i] != ':' by {
        assert(is_upper(s[i]) || is_lower(s[i]));
    }
    there_is_no_colon(s);
    no_acronym_is_split(s, 0);
    assert(s.skip(0) =~= s);
    assert(is_word(words[0]));
    assert(s.skip(0) =~= words[0].skip(0) + together(words, 1));
    words_are_split(s, 0, words, 0, 0);
    assert(words[0].skip(0) =~= words[0]);
    let t = words[0] + set_apart(words, 1);
    words_hold_no_dash(words, 1);
    assert forall|i: int| 0 <= i < t.len() implies #[trigger] t[i] != '-' by {
        if i < words[0].len() {
            assert(t[i] == words[0][i]);
        } else {
            assert(t[i] == set_apart(words, 1)[i - words[0].len()]);
        }
    }
    no_dash_is_swapped(t);
    assert(needs_underscore(s)) by {
        assert(is_upper(s[0]));
    }
}

proof fn a_run_of_capitals(s: Seq<char>, i: int, n: int)
    requires
        0 <= i <= n < s.len(),
        forall|k: int| i <= k < n ==> is_upper(#[trigger] s[k]),
        is_lower(s[n]),
    ensures
        capital_run(s, i) == n,
    decreases n - i,
{
    if i < n {
        assert(is_upper(s[i]));
        a_run_of_capitals(s, i + 1, n);
    }
}

proof fn small_letters_stay(s: Seq<char>, i: int)
    requires
        0 <= i <= s.len(),
        forall|k: int| i <= k < s.len() ==> is_lower(#[trigger] s[k]),
    ensures
        split_acronyms(s, i) == s.skip(i),
    decreases s.len() - i,
{
    if i < s.len() {
        assert(is_lower(s[i]));
        assert(capital_run(s, i) == i);
        small_letters_stay(s, i + 1);
        assert(seq![s[i]] + s.skip(i + 1) =~= s.skip(i));
    } else {
        assert(split_acronyms(s, i) =~= s.skip(i));
    }
}

proof fn no_word_is_split(s: Seq<char>, j: int)
    requires
        0 <= j <= s.len(),
        forall|k: int| 0 <= k < s.len() ==> !#[trigger] breaks_word(s, k),
    ensures
        split_words(s, j) == s.skip(j),
    decreases s.len() - j,
{
    if j < s.len() {
        assert(!breaks_word(s, j));
        no_word_is_split(s, j + 1);
        assert(seq![s[j]] + s.skip(j + 1) =~= s.skip(j));
    } else {
        assert(split_words(s, j) =~= s.skip(j));
    }
}

/// A run of capitals is one word, up to the capital that opens the next.
pub proof fn an_acronym_is_one_word(acronym: Seq<char>, word: Seq<char>)
    requires
        acronym.len() > 0,
        forall|i: int| 0 <= i < acronym.len() ==> is_upper(#[trigger] acronym[i]),
        is_word(word),
    ensures
        snake_of(acronym + word) == acronym + seq!['_'] + word,
{
    let s = acronym + word;
    let a = acronym.len() as int;
    assert forall|i: int| 0 <= i < s.len() implies #[trigger] s[i] != ':' && (is_upper(s[i])
        || is_lower(s[i])) by {
        if i < a {
            assert(s[i] == acronym[i]);
        } else {
            assert(s[i] == word[i - a]);
        }
    }
    there_is_no_colon(s);
    assert forall|k: int| 0 <= k < a + 1 implies is_upper(#[trigger] s[k]) by {
        if k < a {
            assert(s[k] == acronym[k]);
        } else {
            assert(s[k] == word[0]);
        }
    }
    assert(s[a + 1] == word[1]);
    a_run_of_capitals(s, 0, a + 1);
    assert(breaks_acronym(s, 0, a + 1));
    assert forall|k: int| a + 2 <= k < s.len() implies is_lower(#[trigger] s[k]) by {
        assert(s[k] == word[k - a]);
    }
    small_letters_stay(s, a + 2);
    let t = acronym + seq!['_'] + word;
    assert(s.subrange(0, a) =~= acronym);
    assert(split_acronyms(s, 0) =~= t) by {
        assert(s.skip(a + 2) =~= word.skip(2));
        assert(s[a] == word[0]);
    }
    assert forall|k: int| 0 <= k < t.len() implies !#[trigger] breaks_word(t, k) by {
        if k < a {
            assert(t[k] == acronym[k]);
        } else if k > a {
            assert(t[k] == word[k - a - 1]);
            if k + 1 < t.len() {
                assert(t[k + 1] == word[k - a]);
            }
        }
    }
    no_word_is_split(t, 0);
    assert(t.skip(0) =~= t);
    assert forall|i: int| 0 <= i < t.len() implies #[trigger] t[i] != '-' by {
        if i < a {
            assert(t[i] == acronym[i]);
        } else if i > a {
            assert(t[i] == word[i - a - 1]);
        }
    }
    no_dash_is_swapped(t);
}

/// The parts of a path of constants are set apart by slashes.
pub proof fn a_path_of_constants_is_a_path(first: Seq<char>, rest: Seq<char>)
    requires
        forall|i: int| 0 <= i < first.len() ==> #[trigger] first[i] != ':',
    ensures
        replace_of(first + seq![':', ':'] + rest, "::"@, "/"@) == first + seq!['/'] + replace_of(
            rest,
            "::"@,
            "/"@,
        ),
{
    reveal_strlit("::");
    reveal_strlit("/");
    let s = first + seq![':', ':'] + rest;
    let n = first.len() as int;
    let mark = "::"@;
    assert(s.subrange(n, n + 2) =~= mark);
    find_is_first(s, mark, 0);
    assert(occurs_at(s, mark, n));
    assert(find_from_of(s, mark, 0) == Some(n)) by {
        let found = find_from_of(s, mark, 0);
        assert(found is Some);
        let i = found->Some_0;
        assert(i <= n);
        if i < n {
            assert(s.subrange(i, i + 2)[0] == s[i]);
            assert(s[i] == first[i]);
        }
    }
    assert(s.take(n) =~= first);
    assert(s.skip(n + 2) =~= rest);
    assert("/"@ =~= seq!['/']);
}

} // verus!
