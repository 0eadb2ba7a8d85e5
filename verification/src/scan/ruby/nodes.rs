//! What the scanner reads of a parsed Ruby file, and small questions about it:
//! the name of a constant, whether a call is of the `t` family, and whether its
//! receiver is `I18n`.
use crate::bytes::bytes_are;
use crate::text::{push_text, same_text, texts};
use vstd::prelude::*;
use vstd::utf8::encode_utf8;

verus! {

/// An expression, as far as the scanner tells expressions apart.
pub enum Expr {
    /// A string literal, without its escapes.
    Str(String),
    /// A symbol literal, without its escapes.
    Sym(String),
    Int,
    Array(Vec<Expr>),
    /// The value of a shorthand such as `scope:`.
    Implicit(Box<Expr>),
    /// A string with `#{..}` in it: its parts.
    InterpolatedStr(Vec<Expr>),
    /// A symbol with `#{..}` in it: its parts.
    InterpolatedSym(Vec<Expr>),
    /// Keyword arguments: keys and values. A double splat is left out.
    Keywords(Vec<(Expr, Expr)>),
    LocalRead,
    InstanceRead,
    /// A constant.
    Const(String),
    /// A constant behind another expression, or at the top level. The name is
    /// missing where it is not known.
    ConstPath(Option<Box<Expr>>, Option<String>),
    Other,
}

/// What an [`Expr`] holds.
pub enum ExprV {
    Str(Seq<char>),
    Sym(Seq<char>),
    Int,
    Array(Seq<ExprV>),
    Implicit(Box<ExprV>),
    InterpolatedStr(Seq<ExprV>),
    InterpolatedSym(Seq<ExprV>),
    Keywords(Seq<(ExprV, ExprV)>),
    LocalRead,
    InstanceRead,
    Const(Seq<char>),
    ConstPath(Option<Box<ExprV>>, Option<Seq<char>>),
    Other,
}

impl View for Expr {
    type V = ExprV;

    open spec fn view(&self) -> ExprV {
        self.model()
    }
}

impl Expr {
    /// What the expression holds.
    pub open spec fn model(self) -> ExprV
        decreases self,
    {
        match self {
            Expr::Str(s) => ExprV::Str(s@),
            Expr::Sym(s) => ExprV::Sym(s@),
            Expr::Int => ExprV::Int,
            Expr::Array(v) => ExprV::Array(
                Seq::new(
                    v@.len(),
                    |i: int|
                        if 0 <= i < v@.len() {
                            v@[i].model()
                        } else {
                            arbitrary()
                        },
                ),
            ),
            Expr::Implicit(e) => ExprV::Implicit(Box::new(e.model())),
            Expr::InterpolatedStr(v) => ExprV::InterpolatedStr(
                Seq::new(
                    v@.len(),
                    |i: int|
                        if 0 <= i < v@.len() {
                            v@[i].model()
                        } else {
                            arbitrary()
                        },
                ),
            ),
            Expr::InterpolatedSym(v) => ExprV::InterpolatedSym(
                Seq::new(
                    v@.len(),
                    |i: int|
                        if 0 <= i < v@.len() {
                            v@[i].model()
                        } else {
                            arbitrary()
                        },
                ),
            ),
            Expr::Keywords(v) => ExprV::Keywords(
                Seq::new(
                    v@.len(),
                    |i: int|
                        if 0 <= i < v@.len() {
                            (v@[i].0.model(), v@[i].1.model())
                        } else {
                            arbitrary()
                        },
                ),
            ),
            Expr::LocalRead => ExprV::LocalRead,
            Expr::InstanceRead => ExprV::InstanceRead,
            Expr::Const(s) => ExprV::Const(s@),
            Expr::ConstPath(parent, name) => ExprV::ConstPath(
                match parent {
                    Some(p) => Some(Box::new(p.model())),
                    None => None,
                },
                match name {
                    Some(s) => Some(s@),
                    None => None,
                },
            ),
            Expr::Other => ExprV::Other,
        }
    }
}

/// What a list of expressions holds.
pub open spec fn exprs_model(v: Seq<Expr>) -> Seq<ExprV> {
    Seq::new(v.len(), |i: int| v[i]@)
}

/// What a list of keywords holds.
pub open spec fn keywords_model(v: Seq<(Expr, Expr)>) -> Seq<(ExprV, ExprV)> {
    Seq::new(v.len(), |i: int| (v[i].0@, v[i].1@))
}

/// A node of a parsed Ruby file. What lies inside it comes in the order in
/// which it is written; what the scanner does not ask about is left out, and
/// what lies inside that takes its place.
pub enum RubyNode {
    Module { name: String, start: usize, end: usize, body: Vec<RubyNode> },
    Class { name: String, constant: Expr, start: usize, end: usize, body: Vec<RubyNode> },
    Def { name: String, start: usize, end: usize, body: Vec<RubyNode> },
    Call { method: Vec<u8>, call: CallSite, body: Vec<RubyNode> },
}

/// What is written at a call.
pub struct CallSite {
    pub receiver: Option<Expr>,
    pub arguments: Vec<Expr>,
    pub start: usize,
    /// The source of the call.
    pub snippet: String,
}

/// What a [`CallSite`] holds.
pub struct CallSiteV {
    pub receiver: Option<ExprV>,
    pub arguments: Seq<ExprV>,
    pub start: int,
    pub snippet: Seq<char>,
}

impl View for CallSite {
    type V = CallSiteV;

    open spec fn view(&self) -> CallSiteV {
        CallSiteV {
            receiver: match self.receiver {
                Some(e) => Some(e@),
                None => None,
            },
            arguments: exprs_model(self.arguments@),
            start: self.start as int,
            snippet: self.snippet@,
        }
    }
}

/// What a [`RubyNode`] holds.
pub enum RubyV {
    Module { name: Seq<char>, start: int, end: int, body: Seq<RubyV> },
    Class { name: Seq<char>, constant: ExprV, start: int, end: int, body: Seq<RubyV> },
    Def { name: Seq<char>, start: int, end: int, body: Seq<RubyV> },
    Call { method: Seq<u8>, call: CallSiteV, body: Seq<RubyV> },
}

impl View for RubyNode {
    type V = RubyV;

    open spec fn view(&self) -> RubyV {
        self.model()
    }
}

impl RubyNode {
    /// What the node holds.
    pub open spec fn model(self) -> RubyV
        decreases self,
    {
        match self {
            RubyNode::Module { name, start, end, body } => RubyV::Module {
                name: name@,
                start: start as int,
                end: end as int,
                body: Seq::new(
                    body@.len(),
                    |i: int|
                        if 0 <= i < body@.len() {
                            body@[i].model()
                        } else {
                            arbitrary()
                        },
                ),
            },
            RubyNode::Class { name, constant, start, end, body } => RubyV::Class {
                name: name@,
                constant: constant@,
                start: start as int,
                end: end as int,
                body: Seq::new(
                    body@.len(),
                    |i: int|
                        if 0 <= i < body@.len() {
                            body@[i].model()
                        } else {
                            arbitrary()
                        },
                ),
            },
            RubyNode::Def { name, start, end, body } => RubyV::Def {
                name: name@,
                start: start as int,
                end: end as int,
                body: Seq::new(
                    body@.len(),
                    |i: int|
                        if 0 <= i < body@.len() {
                            body@[i].model()
                        } else {
                            arbitrary()
                        },
                ),
            },
            RubyNode::Call { method, call, body } => RubyV::Call {
                method: method@,
                call: call@,
                body: Seq::new(
                    body@.len(),
                    |i: int|
                        if 0 <= i < body@.len() {
                            body@[i].model()
                        } else {
                            arbitrary()
                        },
                ),
            },
        }
    }
}

/// What a list of nodes holds.
pub open spec fn ruby_model(v: Seq<RubyNode>) -> Seq<RubyV> {
    Seq::new(v.len(), |i: int| v[i]@)
}

/// The name of a method of the `t` family, in bytes.
pub open spec fn is_t_name(name: Seq<u8>) -> bool {
    name == encode_utf8("t"@) || name == encode_utf8("t!"@) || name == encode_utf8("translate"@)
        || name == encode_utf8("translate!"@)
}

/// Whether a method is of the `t` family.
pub fn is_translation_name(name: &[u8]) -> (b: bool)
    ensures
        b == is_t_name(name@),
{
    bytes_are(name, "t") || bytes_are(name, "t!") || bytes_are(name, "translate") || bytes_are(
        name,
        "translate!",
    )
}

/// `I18n` or `::I18n`.
pub open spec fn is_i18n(e: ExprV) -> bool {
    match e {
        ExprV::Const(name) => name == "I18n"@,
        ExprV::ConstPath(parent, name) => parent is None && name == Some("I18n"@),
        _ => false,
    }
}

/// Whether a receiver is `I18n` or `::I18n`.
pub fn is_i18n_receiver(recv: &Expr) -> (b: bool)
    ensures
        b == is_i18n(recv@),
{
    match recv {
        Expr::Const(name) => same_text(name, "I18n"),
        Expr::ConstPath(parent, name) => match name {
            Some(name) => parent.is_none() && same_text(name, "I18n"),
            None => false,
        },
        _ => false,
    }
}

/// The names of a constant path, the outermost first.
pub open spec fn constant_names(e: ExprV) -> Seq<Seq<char>>
    decreases e,
{
    match e {
        ExprV::Const(name) => seq![name],
        ExprV::ConstPath(parent, name) => {
            let outer = match parent {
                Some(p) => constant_names(*p),
                None => Seq::empty(),
            };
            match name {
                Some(s) => outer.push(s),
                None => outer,
            }
        },
        _ => Seq::empty(),
    }
}

/// The names of a constant path, the outermost first.
pub fn constant_path_parts(node: &Expr) -> (out: Vec<String>)
    ensures
        texts(out@) == constant_names(node@),
    decreases node,
{
    match node {
        Expr::Const(name) => {
            let mut out: Vec<String> = Vec::new();
            out.push(name.clone());
            assert(texts(out@) =~= seq![name@]);
            out
        },
        Expr::ConstPath(parent, name) => {
            let mut out = match parent {
                Some(p) => constant_path_parts(p),
                None => {
                    let none: Vec<String> = Vec::new();
                    assert(texts(none@) =~= Seq::empty());
                    none
                },
            };
            if let Some(s) = name {
                push_text(&mut out, s.clone());
            }
            out
        },
        _ => {
            let none: Vec<String> = Vec::new();
            assert(texts(none@) =~= Seq::empty());
            none
        },
    }
}

} // verus!
