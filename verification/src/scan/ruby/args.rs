//! The arguments of a `t` call, reduced to values that the scanner decides on.
use crate::scan::ruby::nodes::{exprs_model, keywords_model, Expr, ExprV};
use crate::text::{join, join_of, push_text, same_text, texts};
use vstd::prelude::*;

verus! {

/// The value of an argument.
#[derive(Debug, PartialEq)]
pub enum ArgVal {
    Str(String),
    Int,
    Arr(Vec<ArgVal>),
    Hash(Vec<(String, ArgVal)>),
    /// A variable or a constant. Its value is not static.
    Unresolvable,
    /// A call, or anything else without a static value.
    Nil,
    /// An interpolated string or symbol, reduced to a key pattern.
    Pattern(String),
}

/// What an [`ArgVal`] holds.
pub enum ArgV {
    Str(Seq<char>),
    Int,
    Arr(Seq<ArgV>),
    Hash(Seq<(Seq<char>, ArgV)>),
    Unresolvable,
    Nil,
    Pattern(Seq<char>),
}

impl View for ArgVal {
    type V = ArgV;

    open spec fn view(&self) -> ArgV {
        self.model()
    }
}

impl ArgVal {
    /// What the argument holds.
    pub open spec fn model(self) -> ArgV
        decreases self,
    {
        match self {
            ArgVal::Str(s) => ArgV::Str(s@),
            ArgVal::Int => ArgV::Int,
            ArgVal::Arr(v) => ArgV::Arr(
                Seq::new(
                    v@.len(),
                    |i: int|
                        if 0 <= i < v@.len() {
                            v@[i].model()
                        } else {
                            arbitrary()
                        },
                ),
            ),
            ArgVal::Hash(v) => ArgV::Hash(
                Seq::new(
                    v@.len(),
                    |i: int|
                        if 0 <= i < v@.len() {
                            (v@[i].0@, v@[i].1.model())
                        } else {
                            arbitrary()
                        },
                ),
            ),
            ArgVal::Unresolvable => ArgV::Unresolvable,
            ArgVal::Nil => ArgV::Nil,
            ArgVal::Pattern(s) => ArgV::Pattern(s@),
        }
    }
}

/// What a list of arguments holds.
pub open spec fn args_model(v: Seq<ArgVal>) -> Seq<ArgV> {
    Seq::new(v.len(), |i: int| v[i]@)
}

/// What a list of named arguments holds.
pub open spec fn kwargs_model(v: Seq<(String, ArgVal)>) -> Seq<(Seq<char>, ArgV)> {
    Seq::new(v.len(), |i: int| (v[i].0@, v[i].1@))
}

// ------------------------------------------------------------------ interpolation

/// The pattern of one part of an interpolated text: a text stands for itself,
/// a text that is interpolated again for its own parts, anything else for part
/// of one key segment.
pub open spec fn part_pattern(part: ExprV) -> Seq<char>
    decreases part, 0nat,
{
    match part {
        ExprV::Str(s) => s,
        ExprV::InterpolatedStr(parts) => parts_pattern(parts, parts.len()),
        _ => "*:"@,
    }
}

/// The pattern of the first `n` parts.
pub open spec fn parts_pattern(parts: Seq<ExprV>, n: nat) -> Seq<char>
    decreases parts, n,
{
    if n == 0 || n > parts.len() {
        Seq::empty()
    } else {
        parts_pattern(parts, (n - 1) as nat) + part_pattern(parts[n - 1])
    }
}

/// The key pattern of an interpolated text: `"foo.#{bar}.title"` becomes
/// `foo.*:.title`.
#[verifier::loop_isolation(false)]
pub fn interpolated_pattern(parts: &Vec<Expr>) -> (out: String)
    ensures
        out@ == parts_pattern(exprs_model(parts@), parts@.len()),
    decreases parts,
{
    let ghost model = exprs_model(parts@);
    let mut out = String::new();
    let mut i: usize = 0;
    assert(out@ =~= Seq::empty());
    while i < parts.len()
        invariant
            i <= parts.len(),
            model == exprs_model(parts@),
            out@ == parts_pattern(model, i as nat),
        decreases parts.len() - i,
    {
        assert(decreases_to!(*parts => parts@[i as int]));
        assert(model[i as int] == parts@[i as int]@);
        match &parts[i] {
            Expr::Str(s) => {
                assert(part_pattern(model[i as int]) == s@);
                out.append(s);
            },
            Expr::InterpolatedStr(inner) => {
                assert(parts@[i as int]@->InterpolatedStr_0 =~= exprs_model(inner@));
                assert(part_pattern(model[i as int]) == parts_pattern(
                    exprs_model(inner@),
                    inner@.len(),
                ));
                out.append(&interpolated_pattern(inner));
            },
            _ => {
                assert(part_pattern(model[i as int]) == "*:"@);
                out.append("*:");
            },
        }
        i = i + 1;
    }
    out
}

// ---------------------------------------------------------------------- reduction

/// The value of an expression.
pub open spec fn reduced(e: ExprV) -> ArgV
    decreases e, 0nat,
{
    match e {
        ExprV::Str(s) => ArgV::Str(s),
        ExprV::Sym(s) => ArgV::Str(s),
        ExprV::Int => ArgV::Int,
        ExprV::Array(v) => ArgV::Arr(reduced_list(v, v.len())),
        ExprV::Implicit(inner) => reduced(*inner),
        ExprV::InterpolatedStr(parts) => ArgV::Pattern(parts_pattern(parts, parts.len())),
        ExprV::InterpolatedSym(parts) => ArgV::Pattern(parts_pattern(parts, parts.len())),
        ExprV::Keywords(v) => ArgV::Hash(reduced_keywords(v, v.len())),
        ExprV::LocalRead => ArgV::Unresolvable,
        ExprV::InstanceRead => ArgV::Unresolvable,
        ExprV::Const(_) => ArgV::Unresolvable,
        ExprV::ConstPath(_, _) => ArgV::Unresolvable,
        ExprV::Other => ArgV::Nil,
    }
}

/// The values of the first `n` expressions.
pub open spec fn reduced_list(v: Seq<ExprV>, n: nat) -> Seq<ArgV>
    decreases v, n,
{
    if n == 0 || n > v.len() {
        Seq::empty()
    } else {
        reduced_list(v, (n - 1) as nat).push(reduced(v[n - 1]))
    }
}

/// The values of the first `n` keywords. A keyword that is no text is left out.
pub open spec fn reduced_keywords(v: Seq<(ExprV, ExprV)>, n: nat) -> Seq<(Seq<char>, ArgV)>
    decreases v, n,
{
    if n == 0 || n > v.len() {
        Seq::empty()
    } else {
        match reduced(v[n - 1].0) {
            ArgV::Str(key) => reduced_keywords(v, (n - 1) as nat).push(
                (key, reduced(v[n - 1].1)),
            ),
            _ => reduced_keywords(v, (n - 1) as nat),
        }
    }
}

/// Reduces keyword arguments.
#[verifier::loop_isolation(false)]
pub fn keyword_hash(v: &Vec<(Expr, Expr)>) -> (out: Vec<(String, ArgVal)>)
    ensures
        kwargs_model(out@) == reduced_keywords(keywords_model(v@), v@.len()),
    decreases v,
{
    let ghost model = keywords_model(v@);
    let mut out: Vec<(String, ArgVal)> = Vec::new();
    let mut i: usize = 0;
    assert(kwargs_model(out@) =~= Seq::empty());
    while i < v.len()
        invariant
            i <= v.len(),
            model == keywords_model(v@),
            kwargs_model(out@) == reduced_keywords(model, i as nat),
        decreases v.len() - i,
    {
        assert(decreases_to!(*v => v@[i as int]));
        assert(model[i as int] == (v@[i as int].0@, v@[i as int].1@));
        let ghost before = kwargs_model(out@);
        if let ArgVal::Str(key) = reduce(&v[i].0) {
            let value = reduce(&v[i].1);
            let ghost item = (key@, value@);
            out.push((key, value));
            assert(kwargs_model(out@) =~= before.push(item));
        }
        i = i + 1;
    }
    out
}

#[verifier::loop_isolation(false)]
fn reduce_list(v: &Vec<Expr>) -> (out: Vec<ArgVal>)
    ensures
        args_model(out@) == reduced_list(exprs_model(v@), v@.len()),
    decreases v,
{
    let ghost model = exprs_model(v@);
    let mut out: Vec<ArgVal> = Vec::new();
    let mut i: usize = 0;
    assert(args_model(out@) =~= Seq::empty());
    while i < v.len()
        invariant
            i <= v.len(),
            model == exprs_model(v@),
            args_model(out@) == reduced_list(model, i as nat),
        decreases v.len() - i,
    {
        assert(decreases_to!(*v => v@[i as int]));
        assert(model[i as int] == v@[i as int]@);
        let ghost before = args_model(out@);
        let value = reduce(&v[i]);
        let ghost item = value@;
        out.push(value);
        assert(args_model(out@) =~= before.push(item));
        i = i + 1;
    }
    out
}

/// Reduces an expression to its value.
pub fn reduce(node: &Expr) -> (r: ArgVal)
    ensures
        r@ == reduced(node@),
    decreases node,
{
    match node {
        Expr::Str(s) => ArgVal::Str(s.clone()),
        Expr::Sym(s) => ArgVal::Str(s.clone()),
        Expr::Int => ArgVal::Int,
        Expr::Array(v) => {
            assert(node@->Array_0 =~= exprs_model(v@));
            let r = ArgVal::Arr(reduce_list(v));
            assert(r@->Arr_0 =~= args_model(r->Arr_0@));
            r
        },
        Expr::Implicit(inner) => reduce(inner),
        Expr::InterpolatedStr(parts) => {
            assert(node@->InterpolatedStr_0 =~= exprs_model(parts@));
            ArgVal::Pattern(interpolated_pattern(parts))
        },
        Expr::InterpolatedSym(parts) => {
            assert(node@->InterpolatedSym_0 =~= exprs_model(parts@));
            ArgVal::Pattern(interpolated_pattern(parts))
        },
        Expr::Keywords(v) => {
            assert(node@->Keywords_0 =~= keywords_model(v@));
            let r = ArgVal::Hash(keyword_hash(v));
            assert(r@->Hash_0 =~= kwargs_model(r->Hash_0@));
            r
        },
        Expr::LocalRead => ArgVal::Unresolvable,
        Expr::InstanceRead => ArgVal::Unresolvable,
        Expr::Const(_) => ArgVal::Unresolvable,
        Expr::ConstPath(_, _) => ArgVal::Unresolvable,
        Expr::Other => ArgVal::Nil,
    }
}

// ----------------------------------------------------------- the arguments of a call

/// The values of the first `n` arguments that are no keywords.
pub open spec fn positional_upto(v: Seq<ExprV>, n: nat) -> Seq<ArgV>
    decreases n,
{
    if n == 0 {
        Seq::empty()
    } else if v[n - 1] is Keywords {
        positional_upto(v, (n - 1) as nat)
    } else {
        positional_upto(v, (n - 1) as nat).push(reduced(v[n - 1]))
    }
}

/// The keywords among the first `n` arguments: the last ones, where they come
/// more than once.
pub open spec fn keywords_upto(v: Seq<ExprV>, n: nat) -> Seq<(Seq<char>, ArgV)>
    decreases n,
{
    if n == 0 {
        Seq::empty()
    } else {
        match v[n - 1] {
            ExprV::Keywords(k) => reduced_keywords(k, k.len()),
            _ => keywords_upto(v, (n - 1) as nat),
        }
    }
}

/// The arguments of a call: the positional ones and the keywords.
pub fn process_arguments(arguments: &Vec<Expr>) -> (r: (Vec<ArgVal>, Vec<(String, ArgVal)>))
    ensures
        args_model(r.0@) == positional_upto(exprs_model(arguments@), arguments@.len()),
        kwargs_model(r.1@) == keywords_upto(exprs_model(arguments@), arguments@.len()),
{
    let ghost model = exprs_model(arguments@);
    let mut positional: Vec<ArgVal> = Vec::new();
    let mut kwargs: Vec<(String, ArgVal)> = Vec::new();
    let mut i: usize = 0;
    assert(args_model(positional@) =~= Seq::empty());
    assert(kwargs_model(kwargs@) =~= Seq::empty());
    while i < arguments.len()
        invariant
            i <= arguments.len(),
            model == exprs_model(arguments@),
            args_model(positional@) == positional_upto(model, i as nat),
            kwargs_model(kwargs@) == keywords_upto(model, i as nat),
        decreases arguments.len() - i,
    {
        let arg = &arguments[i];
        assert(model[i as int] == arg@);
        match arg {
            Expr::Keywords(v) => {
                assert(arg@->Keywords_0 =~= keywords_model(v@));
                kwargs = keyword_hash(v);
            },
            _ => {
                let ghost before = args_model(positional@);
                let value = reduce(arg);
                let ghost item = value@;
                positional.push(value);
                assert(args_model(positional@) =~= before.push(item));
            },
        }
        i = i + 1;
    }
    (positional, kwargs)
}

// ---------------------------------------------------------------------- the scope

/// The texts of the first `n` values, where all of them are texts.
pub open spec fn texts_upto(v: Seq<ArgV>, n: nat) -> Option<Seq<Seq<char>>>
    decreases n,
{
    if n == 0 {
        Some(Seq::empty())
    } else {
        match (texts_upto(v, (n - 1) as nat), v[n - 1]) {
            (Some(before), ArgV::Str(s)) => Some(before.push(s)),
            _ => None,
        }
    }
}

/// The value of the first argument of that name, from `i` on.
pub open spec fn first_named(kwargs: Seq<(Seq<char>, ArgV)>, name: Seq<char>, i: int) -> Option<ArgV>
    decreases kwargs.len() - i,
{
    if i < 0 || i >= kwargs.len() {
        None
    } else if kwargs[i].0 == name {
        Some(kwargs[i].1)
    } else {
        first_named(kwargs, name, i + 1)
    }
}

/// The scope that keywords set; `None` where they set none, an error where it
/// is not static or empty.
pub open spec fn scope_of(kwargs: Seq<(Seq<char>, ArgV)>) -> Result<Option<Seq<char>>, ()> {
    match first_named(kwargs, "scope"@, 0) {
        None => Ok(None),
        Some(ArgV::Str(s)) => Ok(Some(join_of(seq![s], "."@))),
        Some(ArgV::Arr(v)) => match texts_upto(v, v.len()) {
            Some(parts) => if parts.len() == 0 {
                Err(())
            } else {
                Ok(Some(join_of(parts, "."@)))
            },
            None => Err(()),
        },
        _ => Err(()),
    }
}

/// A scope that cannot be resolved. The call is dropped.
#[derive(Debug, PartialEq, Eq)]
pub struct ScopeError;

proof fn no_texts_stay_none(v: Seq<ArgV>, n: nat, m: nat)
    requires
        n <= m,
        texts_upto(v, n) is None,
    ensures
        texts_upto(v, m) is None,
    decreases m,
{
    if n < m {
        no_texts_stay_none(v, n, (m - 1) as nat);
    }
}

fn text_values(items: &Vec<ArgVal>) -> (r: Option<Vec<String>>)
    ensures
        texts_upto(args_model(items@), items@.len()) == match r {
            Some(v) => Some(texts(v@)),
            None => None,
        },
{
    let ghost model = args_model(items@);
    let mut out: Vec<String> = Vec::new();
    let mut i: usize = 0;
    assert(texts(out@) =~= Seq::empty());
    while i < items.len()
        invariant
            i <= items.len(),
            model == args_model(items@),
            texts_upto(model, i as nat) == Some(texts(out@)),
        decreases items.len() - i,
    {
        assert(model[i as int] == items@[i as int]@);
        match &items[i] {
            ArgVal::Str(s) => {
                push_text(&mut out, s.clone());
            },
            _ => {
                proof {
                    no_texts_stay_none(model, (i + 1) as nat, items@.len());
                }
                return None;
            },
        }
        i = i + 1;
    }
    Some(out)
}

/// The scope that the keywords of a call set. An empty scope is an error: a
/// scope without a value and no scope at all are different cases.
pub fn resolve_scope(kwargs: &Vec<(String, ArgVal)>) -> (r: Result<Option<String>, ScopeError>)
    ensures
        match r {
            Ok(Some(s)) => scope_of(kwargs_model(kwargs@)) == Ok::<Option<Seq<char>>, ()>(
                Some(s@),
            ),
            Ok(None) => scope_of(kwargs_model(kwargs@)) == Ok::<Option<Seq<char>>, ()>(None),
            Err(_) => scope_of(kwargs_model(kwargs@)) is Err,
        },
{
    let ghost model = kwargs_model(kwargs@);
    let mut i: usize = 0;
    while i < kwargs.len()
        invariant
            i <= kwargs.len(),
            model == kwargs_model(kwargs@),
            first_named(model, "scope"@, i as int) == first_named(model, "scope"@, 0),
        decreases kwargs.len() - i,
    {
        let entry = &kwargs[i];
        assert(model[i as int] == (entry.0@, entry.1@));
        if same_text(&entry.0, "scope") {
            let parts = match &entry.1 {
                ArgVal::Str(s) => {
                    let mut parts: Vec<String> = Vec::new();
                    parts.push(s.clone());
                    assert(texts(parts@) =~= seq![s@]);
                    parts
                },
                ArgVal::Arr(items) => {
                    assert(entry.1@->Arr_0 =~= args_model(items@));
                    match text_values(items) {
                        Some(parts) => {
                            assert(texts(parts@).len() == parts.len());
                            if parts.len() == 0 {
                                return Err(ScopeError);
                            }
                            parts
                        },
                        None => {
                            return Err(ScopeError);
                        },
                    }
                },
                _ => {
                    return Err(ScopeError);
                },
            };
            return Ok(Some(join(&parts, ".")));
        }
        i = i + 1;
    }
    Ok(None)
}

} // verus!
