//! What the scalars and collections of a locale file stand for.
use crate::data::load::{entries_upto, items_upto, value_of, ValueV};
use crate::text::{is_digit, is_letter};
use crate::yaml::{
    date_end, in_class, is_false_text, is_fraction, is_integer, is_null_text, is_timestamp,
    is_true_text, resolved, run_end, sign_end, whole_end, Class, NodeV, Resolved,
};
use vstd::prelude::*;

verus! {

/// A run of digits.
pub open spec fn all_digits(s: Seq<char>) -> bool {
    s.len() > 0 && forall|i: int| 0 <= i < s.len() ==> is_digit(#[trigger] s[i])
}

proof fn a_run_ends(s: Seq<char>, i: int, j: int, class: Class)
    requires
        0 <= i <= j <= s.len(),
        forall|k: int| i <= k < j ==> in_class(#[trigger] s[k], class),
        j == s.len() || !in_class(s[j], class),
    ensures
        run_end(s, i, class) == j,
    decreases j - i,
{
    if i < j {
        assert(in_class(s[i], class));
        a_run_ends(s, i + 1, j, class);
    }
}

proof fn words_are_no_numbers(s: Seq<char>)
    requires
        s.len() > 0,
        is_digit(s[0]) || s[0] == '+' || s[0] == '-' || s[0] == '.',
    ensures
        !is_null_text(s) && !is_true_text(s) && !is_false_text(s),
{
    reveal_strlit("~");
    reveal_strlit("null");
    reveal_strlit("Null");
    reveal_strlit("NULL");
    reveal_strlit("true");
    reveal_strlit("True");
    reveal_strlit("TRUE");
    reveal_strlit("yes");
    reveal_strlit("Yes");
    reveal_strlit("YES");
    reveal_strlit("on");
    reveal_strlit("On");
    reveal_strlit("ON");
    reveal_strlit("false");
    reveal_strlit("False");
    reveal_strlit("FALSE");
    reveal_strlit("no");
    reveal_strlit("No");
    reveal_strlit("NO");
    reveal_strlit("off");
    reveal_strlit("Off");
    reveal_strlit("OFF");
    assert("~"@[0] == '~' && "null"@[0] == 'n' && "Null"@[0] == 'N' && "NULL"@[0] == 'N'
        && "true"@[0] == 't' && "True"@[0] == 'T' && "TRUE"@[0] == 'T' && "yes"@[0] == 'y'
        && "Yes"@[0] == 'Y' && "YES"@[0] == 'Y' && "on"@[0] == 'o' && "On"@[0] == 'O' && "ON"@[0]
        == 'O' && "false"@[0] == 'f' && "False"@[0] == 'F' && "FALSE"@[0] == 'F' && "no"@[0] == 'n'
        && "No"@[0] == 'N' && "NO"@[0] == 'N' && "off"@[0] == 'o' && "Off"@[0] == 'O' && "OFF"@[0]
        == 'O');
}

/// Digits are a number, with or without a sign, and so are digits with a point
/// between them.
pub proof fn digits_are_a_number(sign: Seq<char>, a: Seq<char>, b: Seq<char>)
    requires
        all_digits(a),
        all_digits(b),
        sign == Seq::<char>::empty() || sign == seq!['-'] || sign == seq!['+'],
    ensures
        resolved(sign + a) == Resolved::Number,
        resolved(sign + a + seq!['.'] + b) == Resolved::Number,
{
    let n = sign.len() as int;
    let k = n + a.len();
    let s = sign + a;
    assert forall|i: int| n <= i < k implies is_digit(#[trigger] s[i]) by {
        assert(s[i] == a[i - n]);
    }
    assert(s[n] == a[0] && is_digit(a[0]));
    words_are_no_numbers(s);
    assert(sign_end(s) == n);
    a_run_ends(s, n, k, Class::Separated);
    assert(is_integer(s, n));
    no_date(s, n, k);
    let t = sign + a + seq!['.'] + b;
    assert forall|i: int| n <= i < k implies is_digit(#[trigger] t[i]) by {
        assert(t[i] == a[i - n]);
    }
    assert forall|i: int| k < i < t.len() implies is_digit(#[trigger] t[i]) by {
        assert(t[i] == b[i - k - 1]);
    }
    assert(t[n] == a[0] && t[k] == '.');
    words_are_no_numbers(t);
    assert(sign_end(t) == n);
    a_run_ends(t, n, k, Class::Separated);
    assert(whole_end(t, n) == k);
    a_run_ends(t, k + 1, t.len() as int, Class::Digit);
    assert(is_fraction(t, n));
    no_date(t, n, k);
}

proof fn no_date(s: Seq<char>, n: int, k: int)
    requires
        0 <= n < k <= s.len(),
        n <= 1,
        n == 1 ==> s[0] == '-' || s[0] == '+',
        forall|i: int| n <= i < k ==> is_digit(#[trigger] s[i]),
        k == s.len() || s[k] == '.',
    ensures
        !is_timestamp(s),
{
    a_run_ends(s, n, k, Class::Digit);
    assert(is_digit(s[n]));
    if n == 1 {
        assert(run_end(s, 0, Class::Digit) == 0);
    }
    assert(date_end(s, n) < 0);
    assert(date_end(s, 0) < 0);
}

/// A text that starts with a letter is a string, unless it is one of the words
/// for null, true and false.
pub proof fn a_word_is_a_string(s: Seq<char>)
    requires
        s.len() > 0,
        is_letter(s[0]),
        !is_null_text(s) && !is_true_text(s) && !is_false_text(s),
    ensures
        resolved(s) == Resolved::Str,
{
    reveal_strlit(".inf");
    reveal_strlit(".Inf");
    reveal_strlit(".INF");
    reveal_strlit(".nan");
    reveal_strlit(".NaN");
    reveal_strlit(".NAN");
    assert(".inf"@[0] == '.' && ".Inf"@[0] == '.' && ".INF"@[0] == '.' && ".nan"@[0] == '.'
        && ".NaN"@[0] == '.' && ".NAN"@[0] == '.');
    assert(s.skip(0) =~= s);
    assert(run_end(s, 0, Class::Digit) == 0);
    assert(sign_end(s) == 0);
    assert(whole_end(s, 0) == 0);
}

/// The words for true, false and null, in small letters, in capitals, and with
/// one capital in front.
pub proof fn the_words_that_are_no_strings(s: Seq<char>)
    ensures
        s == "true"@ || s == "True"@ || s == "TRUE"@ || s == "yes"@ || s == "Yes"@ || s == "YES"@
            || s == "on"@ || s == "On"@ || s == "ON"@ ==> resolved(s) == Resolved::Bool(true),
        s == "false"@ || s == "False"@ || s == "FALSE"@ || s == "no"@ || s == "No"@ || s == "NO"@
            || s == "off"@ || s == "Off"@ || s == "OFF"@ ==> resolved(s) == Resolved::Bool(false),
        s == ""@ || s == "~"@ || s == "null"@ || s == "Null"@ || s == "NULL"@ ==> resolved(s)
            == Resolved::Null,
{
    reveal_strlit("");
    reveal_strlit("~");
    reveal_strlit("null");
    reveal_strlit("Null");
    reveal_strlit("NULL");
    reveal_strlit("true");
    reveal_strlit("True");
    reveal_strlit("TRUE");
    reveal_strlit("yes");
    reveal_strlit("Yes");
    reveal_strlit("YES");
    reveal_strlit("on");
    reveal_strlit("On");
    reveal_strlit("ON");
    reveal_strlit("false");
    reveal_strlit("False");
    reveal_strlit("FALSE");
    reveal_strlit("no");
    reveal_strlit("No");
    reveal_strlit("NO");
    reveal_strlit("off");
    reveal_strlit("Off");
    reveal_strlit("OFF");
    assert("~"@.len() == 1 && "null"@.len() == 4 && "Null"@.len() == 4 && "NULL"@.len() == 4);
    assert("null"@[0] == 'n' && "Null"@[0] == 'N' && "NULL"@[0] == 'N');
    assert("true"@[0] == 't' && "True"@[0] == 'T' && "TRUE"@[0] == 'T');
    assert("yes"@.len() == 3 && "Yes"@.len() == 3 && "YES"@.len() == 3);
    assert("on"@.len() == 2 && "On"@.len() == 2 && "ON"@.len() == 2);
    assert("on"@[0] == 'o' && "On"@[0] == 'O' && "ON"@[0] == 'O');
    assert("yes"@[0] == 'y' && "Yes"@[0] == 'Y' && "YES"@[0] == 'Y');
    assert("false"@.len() == 5 && "False"@.len() == 5 && "FALSE"@.len() == 5);
    assert("true"@.len() == 4 && "True"@.len() == 4 && "TRUE"@.len() == 4);
    assert("no"@.len() == 2 && "No"@.len() == 2 && "NO"@.len() == 2);
    assert("no"@[0] == 'n' && "No"@[0] == 'N' && "NO"@[0] == 'N');
    assert("off"@.len() == 3 && "Off"@.len() == 3 && "OFF"@.len() == 3);
    assert("off"@[0] == 'o' && "Off"@[0] == 'O' && "OFF"@[0] == 'O');
}

proof fn items_come_in_order(items: Seq<NodeV>, n: nat, path: Seq<char>)
    requires
        n <= items.len(),
        items_upto(items, n, path) is Ok,
    ensures
        items_upto(items, n, path)->Ok_0.len() == n,
        forall|i: int|
            0 <= i < n ==> value_of(items[i], path, true) == Ok::<ValueV, Seq<char>>(
                #[trigger] items_upto(items, n, path)->Ok_0[i],
            ),
    decreases n,
{
    if n > 0 {
        items_come_in_order(items, (n - 1) as nat, path);
        let before = items_upto(items, (n - 1) as nat, path)->Ok_0;
        let now = items_upto(items, n, path)->Ok_0;
        assert forall|i: int| 0 <= i < n implies value_of(items[i], path, true) == Ok::<
            ValueV,
            Seq<char>,
        >(#[trigger] now[i]) by {
            if i < n - 1 {
                assert(now[i] == before[i]);
            }
        }
    }
}

/// A list stands for the values of its items, in their order.
pub proof fn a_list_holds_its_items(items: Seq<NodeV>, line: int, path: Seq<char>, inside: bool)
    requires
        value_of(NodeV::List { items, line }, path, inside) is Ok,
    ensures
        value_of(NodeV::List { items, line }, path, inside)->Ok_0 matches ValueV::List(v)
            && v.len() == items.len() && forall|i: int|
            0 <= i < items.len() ==> value_of(items[i], path, true) == Ok::<ValueV, Seq<char>>(
                #[trigger] v[i],
            ),
{
    items_come_in_order(items, items.len(), path);
}

proof fn entries_come_in_order(
    entries: Seq<(NodeV, NodeV)>,
    n: nat,
    path: Seq<char>,
    inside: bool,
)
    requires
        n <= entries.len(),
        entries_upto(entries, n, path, inside) is Ok,
    ensures
        entries_upto(entries, n, path, inside)->Ok_0.len() == n,
        forall|i: int|
            0 <= i < n ==> entries[i].0.text() == Some(
                (#[trigger] entries_upto(entries, n, path, inside)->Ok_0[i]).0,
            ) && value_of(entries[i].1, path, inside) == Ok::<ValueV, Seq<char>>(
                entries_upto(entries, n, path, inside)->Ok_0[i].1,
            ),
    decreases n,
{
    if n > 0 {
        entries_come_in_order(entries, (n - 1) as nat, path, inside);
        let before = entries_upto(entries, (n - 1) as nat, path, inside)->Ok_0;
        let now = entries_upto(entries, n, path, inside)->Ok_0;
        assert forall|i: int| 0 <= i < n implies entries[i].0.text() == Some(
            (#[trigger] now[i]).0,
        ) && value_of(entries[i].1, path, inside) == Ok::<ValueV, Seq<char>>(now[i].1) by {
            if i < n - 1 {
                assert(now[i] == before[i]);
            }
        }
    }
}

/// A mapping inside a list stands for its names and values, in their order.
pub proof fn a_mapping_holds_its_entries(
    entries: Seq<(NodeV, NodeV)>,
    line: int,
    path: Seq<char>,
    inside: bool,
)
    requires
        value_of(NodeV::Mapping { entries, line }, path, inside) is Ok,
    ensures
        value_of(NodeV::Mapping { entries, line }, path, inside)->Ok_0 matches ValueV::Table(v)
            && v.len() == entries.len() && forall|i: int|
            0 <= i < entries.len() ==> entries[i].0.text() == Some((#[trigger] v[i]).0) && value_of(
                entries[i].1,
                path,
                inside,
            ) == Ok::<ValueV, Seq<char>>(v[i].1),
{
    entries_come_in_order(entries, entries.len(), path, inside);
}

} // verus!
