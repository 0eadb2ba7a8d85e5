//! Under which keys a relative key stands: the names around a call.
use crate::keys::underscore_of;
use crate::scan::ruby::key::{
    a_relative_key_is_never_bare, candidates_from, filled_parts, joined_key, resolved_keys, scoped,
    CallCtxV,
};
use crate::scan::ruby::nodes::{constant_names, CallSiteV, ExprV, RubyV};
use crate::scan::ruby::args::{keywords_upto, positional_upto, ArgV};
use crate::scan::ruby::{
    class_scope, ctx_in, definition_around, entered, left, made_private, method_scope, module_scope,
    ruby_scan, visited, visited_all, with_call, FactsV, ScopeKind, ScopeV, WalkV,
};
use crate::scan::{nothing_found, LocatorV};
use crate::text::{has_text, join_of, without_prefix, without_suffix};
use vstd::prelude::*;
use vstd::utf8::encode_utf8;

verus! {

/// A module or a class around a call.
pub enum Definition {
    Module { name: Seq<char>, start: int, end: int },
    Class { name: Seq<char>, constant: ExprV, start: int, end: int },
}

/// The definitions one inside the other, from the one at `i` on, around the
/// nodes.
pub open spec fn nested(around: Seq<Definition>, i: int, inner: Seq<RubyV>) -> Seq<RubyV>
    decreases around.len() - i,
{
    if i < 0 || i >= around.len() {
        inner
    } else {
        seq![
            match around[i] {
                Definition::Module { name, start, end } => RubyV::Module {
                    name,
                    start,
                    end,
                    body: nested(around, i + 1, inner),
                },
                Definition::Class { name, constant, start, end } => RubyV::Class {
                    name,
                    constant,
                    start,
                    end,
                    body: nested(around, i + 1, inner),
                },
            },
        ]
    }
}

/// The names of a definition in the spelling of keys. Of a controller, the last
/// name is written without `_controller`.
pub open spec fn key_names(d: Definition) -> Seq<Seq<char>> {
    match d {
        Definition::Module { name, .. } => seq![underscore_of(name)],
        Definition::Class { name, constant, .. } => {
            let names = constant_names(constant);
            Seq::new(
                names.len(),
                |i: int|
                    {
                        let own = underscore_of(names[i]);
                        if i == names.len() - 1 && "Controller"@.is_suffix_of(name)
                            && "_controller"@.is_suffix_of(own) {
                            own.take(own.len() - "_controller"@.len())
                        } else {
                            own
                        }
                    },
            )
        },
    }
}

/// The names of the first `n` definitions, the outermost first.
pub open spec fn all_names(around: Seq<Definition>, n: int) -> Seq<Seq<char>>
    decreases n,
{
    if n <= 0 {
        Seq::empty()
    } else {
        all_names(around, n - 1) + key_names(around[n - 1])
    }
}

// -------------------------------------------------------------------- one scope

proof fn a_class_has_its_names(
    f: FactsV,
    scopes: Seq<ScopeV>,
    name: Seq<char>,
    constant: ExprV,
    start: int,
    end: int,
)
    ensures
        class_scope(f, scopes, name, constant_names(constant)).path == around_path(f, scopes)
            + key_names(Definition::Class { name, constant, start, end }),
{
    reveal_strlit("_controller");
    let names = constant_names(constant);
    let d = Definition::Class { name, constant, start, end };
    let all = crate::scan::ruby::underscored(names);
    let path = class_scope(f, scopes, name, names).path;
    let own = if "Controller"@.is_suffix_of(name) {
        crate::scan::ruby::without_controller(all)
    } else {
        all
    };
    assert(own =~= key_names(d)) by {
        if names.len() > 0 && "Controller"@.is_suffix_of(name) {
            let last = all.last();
            assert(last == underscore_of(names[names.len() - 1]));
            if let Some(rest) = without_suffix(last, "_controller"@) {
                assert(rest =~= last.take(last.len() - "_controller"@.len()));
                assert("_controller"@.is_suffix_of(last));
            } else {
                assert(!"_controller"@.is_suffix_of(last));
            }
        }
    }
}

/// The path of the innermost scope, or of the file where there is none.
pub open spec fn around_path(f: FactsV, scopes: Seq<ScopeV>) -> Seq<Seq<char>> {
    if scopes.len() == 0 {
        f.root_path
    } else {
        scopes[scopes.len() - 1].path
    }
}

/// The path of a module or a class starts with the path around it and goes on
/// with its own names.
pub proof fn a_definition_continues_the_path_around_it(
    f: FactsV,
    scopes: Seq<ScopeV>,
    name: Seq<char>,
    constant: ExprV,
)
    ensures
        ({
            let module = module_scope(f, scopes, name);
            let class = class_scope(f, scopes, name, constant_names(constant));
            let outer = around_path(f, scopes);
            &&& outer.is_prefix_of(module.path)
            &&& module.path.len() == outer.len() + 1
            &&& module.path.last() == underscore_of(name)
            &&& outer.is_prefix_of(class.path)
            &&& class.path.len() == outer.len() + constant_names(constant).len()
            &&& forall|i: int|
                0 <= i < constant_names(constant).len() - 1 ==> class.path[outer.len() + i]
                    == underscore_of(#[trigger] constant_names(constant)[i])
        }),
{
    let outer = around_path(f, scopes);
    let module = module_scope(f, scopes, name);
    let class = class_scope(f, scopes, name, constant_names(constant));
    a_class_has_its_names(f, scopes, name, constant, 0, 0);
    assert(module.path.subrange(0, outer.len() as int) =~= outer);
    assert(class.path.subrange(0, outer.len() as int) =~= outer);
}

/// A method stands in the innermost class or module, whatever methods lie in
/// between; its name follows the path of that, unless it is left out.
pub proof fn a_method_stands_in_its_class(
    f: FactsV,
    outer: Seq<ScopeV>,
    class: ScopeV,
    methods: Seq<ScopeV>,
    name: Seq<char>,
)
    requires
        class.kind != ScopeKind::Method,
        forall|i: int|
            0 <= i < methods.len() ==> (#[trigger] methods[i]).kind == ScopeKind::Method,
    ensures
        ({
            let scope = method_scope(f, outer.push(class) + methods, name);
            let component = match class.kind {
                ScopeKind::Class { view_component, .. } => view_component,
                _ => false,
            };
            let private = match class.kind {
                ScopeKind::Class { private_now, .. } => private_now,
                _ => false,
            };
            &&& scope.path == if component || !f.append_method_name {
                class.path
            } else {
                class.path.push(name)
            }
            &&& scope.caps.relative <==> class.caps.relative && !private
            &&& scope.caps.candidate <==> class.caps.candidate
            &&& scope.kind == ScopeKind::Method
        }),
    decreases methods.len(),
{
    the_definition_is_found(outer, class, methods);
}

proof fn the_definition_is_found(outer: Seq<ScopeV>, class: ScopeV, methods: Seq<ScopeV>)
    requires
        class.kind != ScopeKind::Method,
        forall|i: int|
            0 <= i < methods.len() ==> (#[trigger] methods[i]).kind == ScopeKind::Method,
    ensures
        definition_around(outer.push(class) + methods) == Some(class),
    decreases methods.len(),
{
    let all = outer.push(class) + methods;
    if methods.len() == 0 {
        assert(all =~= outer.push(class));
        assert(all.last() == class);
    } else {
        let shorter = methods.drop_last();
        assert forall|i: int| 0 <= i < shorter.len() implies (#[trigger] shorter[i]).kind
            == ScopeKind::Method by {
            assert(methods[i] == shorter[i]);
        }
        the_definition_is_found(outer, class, shorter);
        assert(all.last() == methods.last());
        assert(methods[methods.len() - 1].kind == ScopeKind::Method);
        assert(all.drop_last() =~= outer.push(class) + shorter);
    }
}

/// The classes that may hold relative keys: controllers, mailers, the
/// components, and every class of a file under a relative root. Only a
/// controller tries the names further out.
pub proof fn which_classes_hold_relative_keys(
    f: FactsV,
    scopes: Seq<ScopeV>,
    name: Seq<char>,
    constant: ExprV,
)
    ensures
        ({
            let class = class_scope(f, scopes, name, constant_names(constant));
            let controller = "Controller"@.is_suffix_of(name);
            &&& class.caps.relative <==> controller || "Mailer"@.is_suffix_of(name) || f.under_root
                || f.view_component_file
            &&& class.caps.candidate <==> controller
            &&& !module_scope(f, scopes, name).caps.relative
            &&& class.kind == (ScopeKind::Class {
                view_component: f.view_component_file,
                private_now: false,
            })
        }),
{
}

/// A `private` changes the innermost class alone: from there on its methods are
/// private. All other scopes, and all paths, stay as they are.
pub proof fn a_private_changes_the_innermost_class_alone(
    outer: Seq<ScopeV>,
    class: ScopeV,
    inner: Seq<ScopeV>,
    component: bool,
    private: bool,
)
    requires
        class.kind == (ScopeKind::Class { view_component: component, private_now: private }),
        forall|i: int| 0 <= i < inner.len() ==> !((#[trigger] inner[i]).kind is Class),
    ensures
        made_private(outer.push(class) + inner) == outer.push(
            ScopeV {
                kind: ScopeKind::Class { view_component: component, private_now: true },
                path: class.path,
                caps: class.caps,
            },
        ) + inner,
    decreases inner.len(),
{
    let all = outer.push(class) + inner;
    let changed = ScopeV {
        kind: ScopeKind::Class { view_component: component, private_now: true },
        path: class.path,
        caps: class.caps,
    };
    if inner.len() == 0 {
        assert(all =~= outer.push(class));
        assert(all.drop_last() =~= outer);
        assert(made_private(all) =~= outer.push(changed) + inner);
    } else {
        let shorter = inner.drop_last();
        assert forall|i: int| 0 <= i < shorter.len() implies !((
        #[trigger] shorter[i]).kind is Class) by {
            assert(inner[i] == shorter[i]);
        }
        a_private_changes_the_innermost_class_alone(outer, class, shorter, component, private);
        assert(all.last() == inner.last());
        assert(!(inner[inner.len() - 1].kind is Class));
        assert(all.drop_last() =~= outer.push(class) + shorter);
        assert(made_private(all) =~= outer.push(changed) + inner);
    }
}

// -------------------------------------------------------------------- all scopes

/// The walk inside the definitions.
spec fn inside(f: FactsV, around: Seq<Definition>, n: int, w: WalkV) -> WalkV
    decreases n,
{
    if n <= 0 {
        w
    } else {
        let before = inside(f, around, n - 1, w);
        match around[n - 1] {
            Definition::Module { name, start, end } => entered(
                f,
                before,
                module_scope(f, before.scopes, name),
                start,
                end,
            ),
            Definition::Class { name, constant, start, end } => entered(
                f,
                before,
                class_scope(f, before.scopes, name, constant_names(constant)),
                start,
                end,
            ),
        }
    }
}

proof fn inside_has_all_names(f: FactsV, around: Seq<Definition>, n: int, w: WalkV)
    requires
        0 <= n <= around.len(),
        w.scopes.len() == 0,
    ensures
        inside(f, around, n, w).out == w.out,
        inside(f, around, n, w).scopes.len() == n,
        around_path(f, inside(f, around, n, w).scopes) == f.root_path + all_names(around, n),
    decreases n,
{
    if n > 0 {
        inside_has_all_names(f, around, n - 1, w);
        let before = inside(f, around, n - 1, w);
        match around[n - 1] {
            Definition::Module { name, .. } => {
                assert(around_path(f, inside(f, around, n, w).scopes) =~= f.root_path + all_names(
                    around,
                    n,
                ));
            },
            Definition::Class { name, constant, start, end } => {
                a_class_has_its_names(f, before.scopes, name, constant, start, end);
                assert(around_path(f, inside(f, around, n, w).scopes) =~= f.root_path + all_names(
                    around,
                    n,
                ));
            },
        }
    } else {
        assert(f.root_path + all_names(around, 0) =~= f.root_path);
    }
}

proof fn one_node(node: RubyV, f: FactsV, loc: LocatorV, w: WalkV)
    ensures
        visited_all(seq![node], 1, f, loc, w) == visited(node, f, loc, w),
{
    assert(visited_all(seq![node], 0, f, loc, w) == w);
    assert(seq![node][0] == node);
}

proof fn the_walk_goes_inside(
    f: FactsV,
    loc: LocatorV,
    around: Seq<Definition>,
    i: int,
    inner: Seq<RubyV>,
    w: WalkV,
)
    requires
        0 <= i <= around.len(),
    ensures
        ({
            let nodes = nested(around, i, inner);
            visited_all(nodes, nodes.len(), f, loc, inside(f, around, i, w)).out == visited_all(
                inner,
                inner.len(),
                f,
                loc,
                inside(f, around, around.len() as int, w),
            ).out
        }),
    decreases around.len() - i,
{
    if i < around.len() {
        the_walk_goes_inside(f, loc, around, i + 1, inner, w);
        let nodes = nested(around, i, inner);
        one_node(nodes[0], f, loc, inside(f, around, i, w));
    }
}

/// A call `t(".rel")` in a method inside classes and modules is found under the
/// path of the file, the names of all the classes and modules around it, the
/// outermost first, the name of the method, and then its own key.
pub proof fn a_relative_key_lies_under_every_name_around_it(
    f: FactsV,
    loc: LocatorV,
    around: Seq<Definition>,
    method: Seq<char>,
    from: int,
    to: int,
    call: CallSiteV,
    rel: Seq<char>,
)
    requires
        around.len() > 0,
        around.last() is Class,
        f.under_root,
        f.append_method_name,
        !f.view_component_file,
        call.receiver is None,
        call.arguments == seq![ExprV::Str("."@ + rel)],
    ensures
        ({
            let site = RubyV::Call { method: encode_utf8("t"@), call, body: Seq::empty() };
            let def = RubyV::Def { name: method, start: from, end: to, body: seq![site] };
            let program = nested(around, 0, seq![def]);
            let found = ruby_scan(program, Seq::empty(), f, loc).keys;
            &&& found.len() == 1
            &&& found[0].0 == joined_key(
                f.root_path + all_names(around, around.len() as int) + seq![method, rel],
            )
        }),
{
    reveal_strlit(".");
    reveal_strlit("t");
    let site = RubyV::Call { method: encode_utf8("t"@), call, body: Seq::empty() };
    let def = RubyV::Def { name: method, start: from, end: to, body: seq![site] };
    let inner = seq![def];
    let program = nested(around, 0, inner);
    let start = WalkV { scopes: Seq::empty(), ranges: Seq::empty(), out: nothing_found() };
    let n = around.len() as int;
    the_walk_goes_inside(f, loc, around, 0, inner, start);
    inside_has_all_names(f, around, n, start);
    inside_has_all_names(f, around, n - 1, start);
    let w = inside(f, around, n, start);
    one_node(def, f, loc, w);
    let scope = method_scope(f, w.scopes, method);
    let deep = entered(f, w, scope, from, to);
    one_node(site, f, loc, deep);
    let class = w.scopes.last();
    let outer = w.scopes.drop_last();
    assert(w.scopes =~= outer.push(class) + Seq::<ScopeV>::empty());
    assert(class.kind is Class && class.caps.relative) by {
        match around[n - 1] {
            Definition::Class { name, constant, .. } => {},
            Definition::Module { .. } => {},
        }
    }
    a_method_stands_in_its_class(f, outer, class, Seq::empty(), method);
    assert(!private_of(class));
    let path = f.root_path + all_names(around, n);
    assert(scope.path == path.push(method));
    let ctx = ctx_in(f, deep.scopes);
    assert(deep.scopes.last() == scope);
    assert(ctx.path == path.push(method) && ctx.caps == scope.caps);
    // The call.
    private_is_not_t();
    assert(visited_all(Seq::<RubyV>::empty(), 0, f, loc, deep) == deep);
    let args = call.arguments;
    let key = "."@ + rel;
    assert(positional_upto(args, 0) =~= Seq::empty());
    assert(positional_upto(args, 1) =~= seq![ArgV::Str(key)]);
    assert(keywords_upto(args, 0) =~= Seq::empty());
    assert(keywords_upto(args, 1) =~= Seq::empty());
    assert("."@.is_prefix_of(key)) by {
        assert(key.subrange(0, 1) =~= "."@);
    }
    assert(without_prefix(key, "."@) == Some(rel)) by {
        assert(key.skip(1) =~= rel);
    }
    let parts = path.push(method).push(rel);
    assert(parts =~= f.root_path + all_names(around, n) + seq![method, rel]);
    let keys = resolved_keys(key, None, ctx, false);
    assert(keys is Some && keys->Some_0[0] == joined_key(parts)) by {
        let m = ctx.path.len() as int;
        assert(ctx.path.take(m) =~= ctx.path);
        if ctx.caps.candidate {
            assert(candidates_from(None, ctx.path, rel, m)[0] == joined_key(
                scoped(None, ctx.path.take(m).push(rel)),
            ));
        }
    }
    let found = with_call(f, loc, deep.out, call, ctx);
    assert(found.keys.len() == 1 && found.keys[0].0 == joined_key(parts));
    assert(crate::scan::ruby::comments_found(f, loc, Seq::empty(), Seq::empty(), 0)
        =~= Seq::empty());
    let all = visited_all(program, program.len(), f, loc, start);
    assert(all.out == found);
    assert(ruby_scan(program, Seq::empty(), f, loc).keys =~= found.keys);
}

/// The methods that follow are private.
spec fn private_of(class: ScopeV) -> bool {
    match class.kind {
        ScopeKind::Class { private_now, .. } => private_now,
        _ => false,
    }
}

proof fn private_is_not_t()
    ensures
        encode_utf8("t"@) != encode_utf8("private"@),
{
    reveal_strlit("private");
    reveal_strlit("t");
    vstd::utf8::encode_utf8_decode_utf8("t"@);
    vstd::utf8::encode_utf8_decode_utf8("private"@);
    assert("t"@.len() != "private"@.len());
}

// -------------------------------------------------------------------------- keys

/// A key without a dot in front stands for itself, behind the scope that the
/// call sets; so does a key with a dot in front on a receiver, without the dot.
pub proof fn an_absolute_key_stands_for_itself(
    key: Seq<char>,
    scope: Option<Seq<char>>,
    ctx: CallCtxV,
    receiver: bool,
)
    ensures
        ({
            let alone = |part: Seq<char>|
                match scope {
                    Some(s) => joined_key(seq![s, part]),
                    None => joined_key(seq![part]),
                };
            &&& key.len() == 0 || key[0] != '.' ==> resolved_keys(key, scope, ctx, receiver)
                == Some(seq![alone(key)])
            &&& key.len() > 0 && key[0] == '.' && receiver ==> resolved_keys(
                key,
                scope,
                ctx,
                receiver,
            ) == Some(seq![alone(key.skip(1))])
        }),
{
    reveal_strlit(".");
    if key.len() > 0 && key[0] == '.' {
        assert(key.subrange(0, 1) =~= "."@);
        assert(without_prefix(key, "."@) == Some(key.skip(1)));
        assert(scoped(scope, seq![key.skip(1)]) =~= match scope {
            Some(s) => seq![s, key.skip(1)],
            None => seq![key.skip(1)],
        });
    } else {
        if "."@.is_prefix_of(key) {
            assert(key.subrange(0, 1)[0] == key[0]);
        }
        assert(scoped(scope, seq![key]) =~= match scope {
            Some(s) => seq![s, key],
            None => seq![key],
        });
    }
}

/// A relative key resolves exactly where the scope holds relative keys. It then
/// stands under the whole path around it; in a controller it may also stand
/// under each shorter beginning of the path, the longest first, but never
/// alone.
pub proof fn what_a_relative_key_may_stand_for(
    rel: Seq<char>,
    scope: Option<Seq<char>>,
    ctx: CallCtxV,
    i: int,
)
    ensures
        ({
            let keys = resolved_keys("."@ + rel, scope, ctx, false);
            let n = ctx.path.len();
            &&& keys is Some <==> ctx.caps.relative && (ctx.caps.candidate ==> n > 0)
            &&& keys is Some && !ctx.caps.candidate ==> keys->Some_0.len() == 1
            &&& keys is Some && ctx.caps.candidate ==> keys->Some_0.len() == n
            &&& keys is Some && 0 <= i < keys->Some_0.len() ==> keys->Some_0[i] == joined_key(
                (match scope {
                    Some(s) => seq![s],
                    None => Seq::empty(),
                }) + ctx.path.take(n - i) + seq![rel],
            )
        }),
{
    reveal_strlit(".");
    let key = "."@ + rel;
    assert(key.subrange(0, 1) =~= "."@);
    assert(key.skip(1) =~= rel);
    assert(without_prefix(key, "."@) == Some(rel));
    let n = ctx.path.len() as int;
    let keys = resolved_keys(key, scope, ctx, false);
    let head = match scope {
        Some(s) => seq![s],
        None => Seq::empty(),
    };
    if keys is Some {
        if ctx.caps.candidate {
            a_relative_key_is_never_bare(scope, ctx.path, rel, n, 0);
            if 0 <= i < keys->Some_0.len() {
                a_relative_key_is_never_bare(scope, ctx.path, rel, n, i);
                assert(scoped(scope, ctx.path.take(n - i).push(rel)) =~= head + ctx.path.take(
                    n - i,
                ) + seq![rel]);
            }
        } else if i == 0 {
            assert(ctx.path.take(n) =~= ctx.path);
            assert(scoped(scope, ctx.path.push(rel)) =~= head + ctx.path.take(n) + seq![rel]);
        }
    }
}

proof fn nothing_is_left_out(parts: Seq<Seq<char>>, n: int)
    requires
        0 <= n <= parts.len(),
        forall|i: int| 0 <= i < parts.len() ==> (#[trigger] parts[i]).len() > 0,
    ensures
        filled_parts(parts, n) == parts.take(n),
    decreases n,
{
    if n > 0 {
        nothing_is_left_out(parts, n - 1);
        assert(parts.take(n) =~= parts.take(n - 1).push(parts[n - 1]));
    } else {
        assert(parts.take(0) =~= Seq::empty());
    }
}

/// Parts that are not empty are joined with dots, one behind the other.
pub proof fn parts_are_joined_with_dots(parts: Seq<Seq<char>>)
    requires
        forall|i: int| 0 <= i < parts.len() ==> (#[trigger] parts[i]).len() > 0,
        !has_text(join_of(parts, "."@), ".."@),
    ensures
        joined_key(parts) == join_of(parts, "."@),
{
    let n = parts.len() as int;
    nothing_is_left_out(parts, n);
    assert(parts.take(n) =~= parts);
    reveal_strlit("..");
}

} // verus!
