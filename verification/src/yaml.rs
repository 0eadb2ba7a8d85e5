//! YAML nodes, and what a plain scalar means in YAML 1.1.
use crate::text::{chars_of, digit, is_digit, is_space, same_text, space};
use vstd::prelude::*;

verus! {

/// A parsed YAML node. `plain` marks a scalar that was written without quotes
/// and not as a block; `line` counts from 1.
pub enum Node {
    Scalar { value: String, plain: bool, line: usize },
    List { items: Vec<Node>, line: usize },
    Mapping { entries: Vec<(Node, Node)>, line: usize },
}

/// What a [`Node`] holds.
pub enum NodeV {
    Scalar { value: Seq<char>, plain: bool, line: int },
    List { items: Seq<NodeV>, line: int },
    Mapping { entries: Seq<(NodeV, NodeV)>, line: int },
}

impl View for Node {
    type V = NodeV;

    open spec fn view(&self) -> NodeV {
        self.model()
    }
}

impl Node {
    /// What the node holds.
    pub open spec fn model(self) -> NodeV
        decreases self,
    {
        match self {
            Node::Scalar { value, plain, line } => NodeV::Scalar {
                value: value@,
                plain,
                line: line as int,
            },
            Node::List { items, line } => NodeV::List {
                items: Seq::new(
                    items@.len(),
                    |i: int|
                        if 0 <= i < items@.len() {
                            items@[i].model()
                        } else {
                            arbitrary()
                        },
                ),
                line: line as int,
            },
            Node::Mapping { entries, line } => NodeV::Mapping {
                entries: Seq::new(
                    entries@.len(),
                    |i: int|
                        if 0 <= i < entries@.len() {
                            (entries@[i].0.model(), entries@[i].1.model())
                        } else {
                            arbitrary()
                        },
                ),
                line: line as int,
            },
        }
    }

    /// The text of a scalar.
    pub fn as_str(&self) -> (r: Option<&str>)
        ensures
            match r {
                Some(s) => self@.text() == Some(s@),
                None => self@.text() is None,
            },
    {
        match self {
            Node::Scalar { value, .. } => Some(value.as_str()),
            _ => None,
        }
    }

    /// The entries of a mapping.
    pub fn as_map(&self) -> (r: Option<&Vec<(Node, Node)>>)
        ensures
            match r {
                Some(entries) => self@.entries() == Some(entries_model(entries@)),
                None => self@.entries() is None,
            },
    {
        match self {
            Node::Mapping { entries, .. } => {
                assert(self@->entries =~= entries_model(entries@));
                Some(entries)
            },
            _ => None,
        }
    }

    /// Whether this is a scalar written in the plain style.
    pub fn is_plain(&self) -> (b: bool)
        ensures
            b == self@.is_plain(),
    {
        match self {
            Node::Scalar { plain, .. } => *plain,
            _ => false,
        }
    }

    /// The line on which the node starts.
    pub fn line(&self) -> (n: usize)
        ensures
            n == self@.line(),
    {
        match self {
            Node::Scalar { line, .. } => *line,
            Node::List { line, .. } => *line,
            Node::Mapping { line, .. } => *line,
        }
    }
}

impl NodeV {
    /// The text of a scalar.
    pub open spec fn text(self) -> Option<Seq<char>> {
        match self {
            NodeV::Scalar { value, .. } => Some(value),
            _ => None,
        }
    }

    /// The entries of a mapping.
    pub open spec fn entries(self) -> Option<Seq<(NodeV, NodeV)>> {
        match self {
            NodeV::Mapping { entries, .. } => Some(entries),
            _ => None,
        }
    }

    /// A scalar without quotes.
    pub open spec fn is_plain(self) -> bool {
        match self {
            NodeV::Scalar { plain, .. } => plain,
            _ => false,
        }
    }

    /// The line on which the node starts.
    pub open spec fn line(self) -> int {
        match self {
            NodeV::Scalar { line, .. } => line,
            NodeV::List { line, .. } => line,
            NodeV::Mapping { line, .. } => line,
        }
    }
}

/// What a list of nodes holds.
pub open spec fn nodes_model(v: Seq<Node>) -> Seq<NodeV> {
    Seq::new(v.len(), |i: int| v[i]@)
}

/// What a list of entries holds.
pub open spec fn entries_model(v: Seq<(Node, Node)>) -> Seq<(NodeV, NodeV)> {
    Seq::new(v.len(), |i: int| (v[i].0@, v[i].1@))
}

// --------------------------------------------------------------- plain scalars

/// What YAML 1.1 takes a plain scalar for.
#[derive(Clone, Copy, Debug, PartialEq, Eq, Structural)]
pub enum Resolved {
    Null,
    Bool(bool),
    Number,
    Timestamp,
    Str,
}

/// Characters that numbers and timestamps are made of.
#[derive(Clone, Copy)]
pub enum Class {
    Digit,
    /// Digits and `_`.
    Grouped,
    /// Digits, `_` and `,`.
    Separated,
    Binary,
    Hex,
    Space,
}

/// The character belongs to the class.
pub open spec fn in_class(c: char, class: Class) -> bool {
    match class {
        Class::Digit => is_digit(c),
        Class::Grouped => is_digit(c) || c == '_',
        Class::Separated => is_digit(c) || c == '_' || c == ',',
        Class::Binary => c == '0' || c == '1' || c == '_',
        Class::Hex => is_digit(c) || 'a' <= c <= 'f' || 'A' <= c <= 'F' || c == '_',
        Class::Space => is_space(c),
    }
}

fn belongs(c: char, class: Class) -> (b: bool)
    ensures
        b == in_class(c, class),
{
    match class {
        Class::Digit => digit(c),
        Class::Grouped => digit(c) || c == '_',
        Class::Separated => digit(c) || c == '_' || c == ',',
        Class::Binary => c == '0' || c == '1' || c == '_',
        Class::Hex => digit(c) || ('a' <= c && c <= 'f') || ('A' <= c && c <= 'F') || c == '_',
        Class::Space => space(c),
    }
}

/// The end of the run of characters of the class that starts at `i`.
pub open spec fn run_end(s: Seq<char>, i: int, class: Class) -> int
    decreases s.len() - i,
{
    if 0 <= i < s.len() && in_class(s[i], class) {
        run_end(s, i + 1, class)
    } else {
        i
    }
}

fn end_of_run(s: &Vec<char>, from: usize, class: Class) -> (end: usize)
    requires
        from <= s.len(),
    ensures
        end == run_end(s@, from as int, class),
        from <= end <= s.len(),
{
    let mut end: usize = from;
    while end < s.len() && belongs(s[end], class)
        invariant
            from <= end <= s.len(),
            run_end(s@, from as int, class) == run_end(s@, end as int, class),
        decreases s.len() - end,
    {
        end = end + 1;
    }
    end
}

/// The character at `i` is one of the two.
pub open spec fn either_at(s: Seq<char>, i: int, a: char, b: char) -> bool {
    0 <= i < s.len() && (s[i] == a || s[i] == b)
}

fn one_of(s: &Vec<char>, i: usize, a: char, b: char) -> (r: bool)
    ensures
        r == either_at(s@, i as int, a, b),
{
    i < s.len() && (s[i] == a || s[i] == b)
}

/// A digit stands at `i`.
pub open spec fn digit_at(s: Seq<char>, i: int) -> bool {
    0 <= i < s.len() && is_digit(s[i])
}

fn has_digit(s: &Vec<char>, i: usize) -> (r: bool)
    ensures
        r == digit_at(s@, i as int),
{
    i < s.len() && digit(s[i])
}

/// The place after an optional sign.
pub open spec fn sign_end(s: Seq<char>) -> int {
    if either_at(s, 0, '+', '-') {
        1
    } else {
        0
    }
}

/// Digits, `_` and `,` from the first digit to the end.
pub open spec fn is_integer(s: Seq<char>, i: int) -> bool {
    digit_at(s, i) && run_end(s, i, Class::Separated) == s.len()
}

/// `0b` or `0x` and then at least one digit of the base, with any `_`.
pub open spec fn is_based(s: Seq<char>, i: int, mark: char, class: Class) -> bool {
    &&& either_at(s, i, '0', '0')
    &&& either_at(s, i + 1, mark, mark)
    &&& run_end(s, i + 2, class) == s.len()
    &&& exists|k: int| i + 2 <= k < s.len() && #[trigger] s[k] != '_'
}

fn based(s: &Vec<char>, i: usize, mark: char, class: Class) -> (r: bool)
    requires
        i <= 1,
    ensures
        r == is_based(s@, i as int, mark, class),
{
    if !one_of(s, i, '0', '0') || !one_of(s, i + 1, mark, mark) {
        return false;
    }
    if end_of_run(s, i + 2, class) != s.len() {
        return false;
    }
    let mut k: usize = i + 2;
    while k < s.len()
        invariant
            i + 2 <= k <= s.len(),
            either_at(s@, i as int, '0', '0'),
            either_at(s@, i + 1, mark, mark),
            run_end(s@, i + 2, class) == s.len(),
            forall|j: int| i + 2 <= j < k ==> #[trigger] s@[j] == '_',
        decreases s.len() - k,
    {
        if s[k] != '_' {
            return true;
        }
        k = k + 1;
    }
    false
}

/// `e` or `E`, a sign and digits, up to the end.
pub open spec fn is_exponent(s: Seq<char>, k: int) -> bool {
    either_at(s, k, 'e', 'E') && either_at(s, k + 1, '+', '-') && digit_at(s, k + 2) && run_end(
        s,
        k + 2,
        Class::Digit,
    ) == s.len()
}

/// The place after the digits before a decimal point.
pub open spec fn whole_end(s: Seq<char>, i: int) -> int {
    if digit_at(s, i) {
        run_end(s, i, Class::Separated)
    } else {
        i
    }
}

/// A decimal fraction with a digit on at least one side of the point.
pub open spec fn is_fraction(s: Seq<char>, i: int) -> bool {
    let point = whole_end(s, i);
    let end = run_end(s, point + 1, Class::Digit);
    &&& either_at(s, point, '.', '.')
    &&& point > i || end > point + 1
    &&& end == s.len() || is_exponent(s, end)
}

fn fraction(s: &Vec<char>, i: usize) -> (r: bool)
    requires
        i <= 1,
    ensures
        r == is_fraction(s@, i as int),
{
    let point: usize = if has_digit(s, i) {
        end_of_run(s, i, Class::Separated)
    } else {
        i
    };
    if !one_of(s, point, '.', '.') {
        return false;
    }
    let end = end_of_run(s, point + 1, Class::Digit);
    if point == i && end == point + 1 {
        return false;
    }
    if end == s.len() {
        return true;
    }
    one_of(s, end, 'e', 'E') && end + 1 < s.len() && one_of(s, end + 1, '+', '-') && end + 1
        < s.len() - 1 && has_digit(s, end + 2) && end_of_run(s, end + 2, Class::Digit) == s.len()
}

/// The place after `:` and a number below 60, or -1.
pub open spec fn sixty_end(s: Seq<char>, j: int) -> int {
    if !either_at(s, j, ':', ':') || !digit_at(s, j + 1) {
        -1
    } else if '0' <= s[j + 1] <= '5' && digit_at(s, j + 2) {
        j + 3
    } else {
        j + 2
    }
}

fn end_of_sixty(s: &Vec<char>, j: usize) -> (r: Option<usize>)
    requires
        j <= s.len(),
    ensures
        match r {
            Some(e) => sixty_end(s@, j as int) == e && e <= s.len() && e > j,
            None => sixty_end(s@, j as int) == -1,
        },
{
    if !one_of(s, j, ':', ':') || j + 1 >= s.len() || !has_digit(s, j + 1) {
        None
    } else if '0' <= s[j + 1] && s[j + 1] <= '5' && j + 1 < s.len() - 1 && has_digit(s, j + 2) {
        Some(j + 3)
    } else {
        Some(j + 2)
    }
}

/// Nothing, or a point and digits, up to the end.
pub open spec fn ends_sixty(s: Seq<char>, e: int) -> bool {
    e == s.len() || (either_at(s, e, '.', '.') && run_end(s, e + 1, Class::Grouped) == s.len())
}

fn closes_sixty(s: &Vec<char>, e: usize) -> (r: bool)
    ensures
        r == ends_sixty(s@, e as int),
{
    e == s.len() || (one_of(s, e, '.', '.') && end_of_run(s, e + 1, Class::Grouped) == s.len())
}

/// A number in base 60: digits, then one or two groups such as `:30`.
pub open spec fn is_sexagesimal(s: Seq<char>, i: int) -> bool {
    let a = sixty_end(s, run_end(s, i, Class::Grouped));
    let b = sixty_end(s, a);
    &&& digit_at(s, i)
    &&& a >= 0
    &&& ends_sixty(s, a) || (b >= 0 && ends_sixty(s, b))
}

fn sexagesimal(s: &Vec<char>, i: usize) -> (r: bool)
    requires
        i <= 1,
    ensures
        r == is_sexagesimal(s@, i as int),
{
    if !has_digit(s, i) {
        return false;
    }
    match end_of_sixty(s, end_of_run(s, i, Class::Grouped)) {
        Some(a) => closes_sixty(s, a) || match end_of_sixty(s, a) {
            Some(b) => closes_sixty(s, b),
            None => false,
        },
        None => false,
    }
}

/// The special numbers, without a sign.
pub open spec fn is_infinity(s: Seq<char>) -> bool {
    s == ".inf"@ || s == ".Inf"@ || s == ".INF"@
}

/// What is not a number but counts as one.
pub open spec fn is_nan(s: Seq<char>) -> bool {
    s == ".nan"@ || s == ".NaN"@ || s == ".NAN"@
}

/// YAML 1.1 reads the text as a number.
pub open spec fn is_number(s: Seq<char>) -> bool {
    let i = sign_end(s);
    ||| is_integer(s, i)
    ||| is_based(s, i, 'b', Class::Binary)
    ||| is_based(s, i, 'x', Class::Hex)
    ||| is_fraction(s, i)
    ||| is_sexagesimal(s, i)
    ||| is_infinity(s.skip(i))
    ||| is_nan(s)
}

fn number(text: &str) -> (r: bool)
    ensures
        r == is_number(text@),
{
    let s = chars_of(text);
    let i: usize = if one_of(&s, 0, '+', '-') {
        1
    } else {
        0
    };
    if (has_digit(&s, i) && end_of_run(&s, i, Class::Separated) == s.len()) || based(
        &s,
        i,
        'b',
        Class::Binary,
    ) || based(&s, i, 'x', Class::Hex) || fraction(&s, i) || sexagesimal(&s, i) {
        return true;
    }
    let unsigned = text.substring_char(i, s.len());
    assert(unsigned@ =~= text@.skip(i as int));
    same_text(unsigned, ".inf") || same_text(unsigned, ".Inf") || same_text(unsigned, ".INF")
        || same_text(text, ".nan") || same_text(text, ".NaN") || same_text(text, ".NAN")
}

/// The place after one or two digits, or -1.
pub open spec fn short_end(s: Seq<char>, i: int) -> int {
    if !digit_at(s, i) {
        -1
    } else if digit_at(s, i + 1) {
        i + 2
    } else {
        i + 1
    }
}

fn end_of_short(s: &Vec<char>, i: usize) -> (r: Option<usize>)
    ensures
        match r {
            Some(e) => short_end(s@, i as int) == e && i < e <= s.len(),
            None => short_end(s@, i as int) == -1,
        },
{
    let n = s.len();
    if !has_digit(s, i) {
        None
    } else if i + 1 < n && has_digit(s, i + 1) {
        Some(i + 2)
    } else {
        Some(i + 1)
    }
}

/// The place after `mark` and one or two digits, or -1.
pub open spec fn marked_end(s: Seq<char>, i: int, mark: char) -> int {
    if either_at(s, i, mark, mark) {
        short_end(s, i + 1)
    } else {
        -1
    }
}

fn end_of_marked(s: &Vec<char>, i: usize, mark: char) -> (r: Option<usize>)
    ensures
        match r {
            Some(e) => marked_end(s@, i as int, mark) == e && i < e <= s.len(),
            None => marked_end(s@, i as int, mark) == -1,
        },
{
    let n = s.len();
    if i < n && one_of(s, i, mark, mark) {
        end_of_short(s, i + 1)
    } else {
        None
    }
}

/// The place after a year of four digits, a month and a day, or -1.
pub open spec fn date_end(s: Seq<char>, i: int) -> int {
    if run_end(s, i, Class::Digit) != i + 4 || marked_end(s, i + 4, '-') < 0 {
        -1
    } else {
        marked_end(s, marked_end(s, i + 4, '-'), '-')
    }
}

fn end_of_date(s: &Vec<char>, i: usize) -> (r: Option<usize>)
    requires
        i <= s.len(),
    ensures
        match r {
            Some(e) => date_end(s@, i as int) == e && i < e <= s.len(),
            None => date_end(s@, i as int) == -1,
        },
{
    let year = end_of_run(s, i, Class::Digit);
    if year - i != 4 {
        return None;
    }
    match end_of_marked(s, year, '-') {
        Some(month) => end_of_marked(s, month, '-'),
        None => None,
    }
}

/// The place after `mark` and exactly two digits, or -1.
pub open spec fn pair_end(s: Seq<char>, i: int) -> int {
    if either_at(s, i, ':', ':') && digit_at(s, i + 1) && digit_at(s, i + 2) {
        i + 3
    } else {
        -1
    }
}

fn end_of_pair(s: &Vec<char>, i: usize) -> (r: Option<usize>)
    ensures
        match r {
            Some(e) => pair_end(s@, i as int) == e && i < e <= s.len(),
            None => pair_end(s@, i as int) == -1,
        },
{
    let n = s.len();
    if i < n && one_of(s, i, ':', ':') && i + 1 < n && has_digit(s, i + 1) && i + 1 < s.len() - 1
        && has_digit(s, i + 2) {
        Some(i + 3)
    } else {
        None
    }
}

/// The place where the hour of a time stands: after `T` or white space, or -1.
pub open spec fn clock_start(s: Seq<char>, i: int) -> int {
    if either_at(s, i, 'T', 't') {
        i + 1
    } else if run_end(s, i, Class::Space) > i {
        run_end(s, i, Class::Space)
    } else {
        -1
    }
}

/// The place after hours, minutes and seconds at `i`, or -1.
pub open spec fn clock_end(s: Seq<char>, i: int) -> int {
    let hour = short_end(s, i);
    if hour < 0 || pair_end(s, hour) < 0 || pair_end(s, pair_end(s, hour)) < 0 {
        -1
    } else {
        let second = pair_end(s, pair_end(s, hour));
        if either_at(s, second, '.', '.') {
            run_end(s, second + 1, Class::Digit)
        } else {
            second
        }
    }
}

fn end_of_clock(s: &Vec<char>, i: usize) -> (r: Option<usize>)
    ensures
        match r {
            Some(e) => clock_end(s@, i as int) == e && e <= s.len(),
            None => clock_end(s@, i as int) == -1,
        },
{
    match end_of_short(s, i) {
        Some(hour) => match end_of_pair(s, hour) {
            Some(minute) => match end_of_pair(s, minute) {
                Some(second) => if one_of(s, second, '.', '.') {
                    Some(end_of_run(s, second + 1, Class::Digit))
                } else {
                    Some(second)
                },
                None => None,
            },
            None => None,
        },
        None => None,
    }
}

/// A time zone, up to the end: `Z`, or a sign, hours and perhaps minutes.
pub open spec fn is_zone(s: Seq<char>, i: int) -> bool {
    let hour = short_end(s, i + 1);
    let minute = if either_at(s, hour, ':', ':') {
        hour + 1
    } else {
        hour
    };
    ||| either_at(s, i, 'Z', 'Z') && i + 1 == s.len()
    ||| {
        &&& either_at(s, i, '+', '-')
        &&& hour >= 0
        &&& minute == s.len() || (digit_at(s, minute) && digit_at(s, minute + 1) && minute + 2
            == s.len())
    }
}

fn zone(s: &Vec<char>, i: usize) -> (r: bool)
    ensures
        r == is_zone(s@, i as int),
{
    let n = s.len();
    if i >= n {
        return false;
    }
    if one_of(s, i, 'Z', 'Z') {
        return i + 1 == n;
    }
    if !one_of(s, i, '+', '-') {
        return false;
    }
    match end_of_short(s, i + 1) {
        Some(hour) => {
            let minute: usize = if one_of(s, hour, ':', ':') {
                hour + 1
            } else {
                hour
            };
            minute == s.len() || (has_digit(s, minute) && minute + 1 < s.len() && has_digit(
                s,
                minute + 1,
            ) && minute + 1 == s.len() - 1)
        },
        None => false,
    }
}

/// A date with a time of day, and perhaps a time zone.
pub open spec fn is_date_time(s: Seq<char>) -> bool {
    let day = date_end(
        s,
        if either_at(s, 0, '-', '-') {
            1
        } else {
            0
        },
    );
    let end = clock_end(s, clock_start(s, day));
    &&& day >= 0
    &&& clock_start(s, day) >= 0
    &&& end >= 0
    &&& end == s.len() || is_zone(s, run_end(s, end, Class::Space))
}

/// YAML 1.1 reads the text as a date, or as a date with a time of day.
pub open spec fn is_timestamp(s: Seq<char>) -> bool {
    date_end(s, 0) == s.len() || is_date_time(s)
}

fn timestamp(text: &str) -> (r: bool)
    ensures
        r == is_timestamp(text@),
{
    let s = chars_of(text);
    match end_of_date(&s, 0) {
        Some(e) => if e == s.len() {
            return true;
        },
        None => {},
    }
    let from: usize = if one_of(&s, 0, '-', '-') {
        1
    } else {
        0
    };
    let day: usize = match end_of_date(&s, from) {
        Some(day) => day,
        None => {
            return false;
        },
    };
    let start: usize = if one_of(&s, day, 'T', 't') {
        day + 1
    } else {
        let after = end_of_run(&s, day, Class::Space);
        if after == day {
            return false;
        }
        after
    };
    match end_of_clock(&s, start) {
        Some(end) => end == s.len() || zone(&s, end_of_run(&s, end, Class::Space)),
        None => false,
    }
}

/// A spelling of null.
pub open spec fn is_null_text(s: Seq<char>) -> bool {
    s.len() == 0 || s == "~"@ || s == "null"@ || s == "Null"@ || s == "NULL"@
}

/// A spelling of true.
pub open spec fn is_true_text(s: Seq<char>) -> bool {
    ||| s == "true"@ || s == "True"@ || s == "TRUE"@
    ||| s == "yes"@ || s == "Yes"@ || s == "YES"@
    ||| s == "on"@ || s == "On"@ || s == "ON"@
}

/// A spelling of false.
pub open spec fn is_false_text(s: Seq<char>) -> bool {
    ||| s == "false"@ || s == "False"@ || s == "FALSE"@
    ||| s == "no"@ || s == "No"@ || s == "NO"@
    ||| s == "off"@ || s == "Off"@ || s == "OFF"@
}

/// What YAML 1.1 takes the plain scalar `s` for.
pub open spec fn resolved(s: Seq<char>) -> Resolved {
    if is_null_text(s) {
        Resolved::Null
    } else if is_true_text(s) {
        Resolved::Bool(true)
    } else if is_false_text(s) {
        Resolved::Bool(false)
    } else if is_timestamp(s) {
        Resolved::Timestamp
    } else if is_number(s) {
        Resolved::Number
    } else {
        Resolved::Str
    }
}

fn null_text(s: &str) -> (r: bool)
    ensures
        r == is_null_text(s@),
{
    s.is_empty() || same_text(s, "~") || same_text(s, "null") || same_text(s, "Null") || same_text(
        s,
        "NULL",
    )
}

/// What YAML 1.1 takes a plain scalar for.
pub fn resolve_plain(s: &str) -> (r: Resolved)
    ensures
        r == resolved(s@),
{
    if null_text(s) {
        Resolved::Null
    } else if same_text(s, "true") || same_text(s, "True") || same_text(s, "TRUE") || same_text(
        s,
        "yes",
    ) || same_text(s, "Yes") || same_text(s, "YES") || same_text(s, "on") || same_text(s, "On")
        || same_text(s, "ON") {
        Resolved::Bool(true)
    } else if same_text(s, "false") || same_text(s, "False") || same_text(s, "FALSE") || same_text(
        s,
        "no",
    ) || same_text(s, "No") || same_text(s, "NO") || same_text(s, "off") || same_text(s, "Off")
        || same_text(s, "OFF") {
        Resolved::Bool(false)
    } else if timestamp(s) {
        Resolved::Timestamp
    } else if number(s) {
        Resolved::Number
    } else {
        Resolved::Str
    }
}

/// A plain scalar that YAML reads as null.
pub open spec fn null_scalar(n: NodeV) -> bool {
    n matches NodeV::Scalar { value, plain, .. } && plain && is_null_text(value)
}

/// Whether the node is a plain scalar that YAML reads as null.
pub fn is_null_scalar(node: &Node) -> (r: bool)
    ensures
        r == null_scalar(node@),
{
    match node {
        Node::Scalar { value, plain, .. } => *plain && null_text(value),
        _ => false,
    }
}

} // verus!
