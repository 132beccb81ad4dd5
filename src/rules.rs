//! The rewrite rules as spec functions: what each rule makes of the edits,
//! and how a walk, a round and the fixpoint chain them.
use vstd::prelude::*;
use crate::references::{References, Reference, Symbol, dead_under};
use crate::replacements::{Replacement, ReplacementValue, added, added_all, covered, deleted, same_entries};
use crate::span::Span;
use crate::tree::{Ancestor, NodeKind, Slot, Tree, path_up};

verus! {

/// The separator between children `k` and `k + 1` of node `i`.
pub open spec fn gap(tree: &Tree, i: int, k: int) -> Span {
    Span { start: tree.child_span(i, k).end, end: tree.child_span(i, k + 1).start }
}

/// Deletions of the separators after the dead children among positions
/// `lo..k` of node `i`, in order.
pub open spec fn pair_marks(tree: &Tree, i: int, lo: int, k: int, s: Seq<Replacement>) -> Seq<Replacement>
    decreases k - lo,
{
    if k <= lo {
        Seq::empty()
    } else {
        let rest = pair_marks(tree, i, lo, k - 1, s);
        if deleted(s, tree.child_span(i, k - 1)) && gap(tree, i, k - 1).valid() {
            rest.push(Replacement { span: gap(tree, i, k - 1), value: ReplacementValue::Del })
        } else {
            rest
        }
    }
}

/// The separator deletions of a list of children `lo..hi`: after each dead
/// child but the last, and before the last child when it is dead.
pub open spec fn delimiter_marks(tree: &Tree, i: int, lo: int, hi: int, s: Seq<Replacement>) -> Seq<Replacement> {
    if hi - lo < 2 {
        Seq::empty()
    } else {
        let pm = pair_marks(tree, i, lo, hi - 1, s);
        if deleted(s, tree.child_span(i, hi - 1)) && gap(tree, i, hi - 2).valid() {
            pm.push(Replacement { span: gap(tree, i, hi - 2), value: ReplacementValue::Del })
        } else {
            pm
        }
    }
}

/// The entry that writes `v` over `span`.
pub open spec fn text_entry(span: Span, v: String) -> Replacement {
    Replacement { span, value: ReplacementValue::Str(v) }
}

/// Deletions of the first `k` children of node `i`, in order.
pub open spec fn param_deletions(tree: &Tree, i: int, k: int) -> Seq<Replacement>
    decreases k,
{
    if k <= 0 {
        Seq::empty()
    } else {
        param_deletions(tree, i, k - 1).push(
            Replacement { span: tree.child_span(i, k - 1), value: ReplacementValue::Del },
        )
    }
}

/// A function whose body is marked loses its parameters, the separators
/// between them, its rest parameter and the separator before it.
pub open spec fn function_effect(
    tree: &Tree,
    i: int,
    has_rest: bool,
    has_body: bool,
    s: Seq<Replacement>,
) -> Seq<Replacement> {
    let n = tree.nodes@[i].children@.len() as int;
    let extra: int = if has_rest { 1 } else { 0 };
    if !has_body || n < 1 + extra || !covered(s, tree.child_span(i, n - 1)) {
        s
    } else {
        let params = n - 1 - extra;
        let s1 = added_all(s, param_deletions(tree, i, params));
        let s2 = with_delimiters(tree, i, 0, params, s1);
        if has_rest {
            let rest = tree.child_span(i, params);
            let s3 = added(s2, Replacement { span: rest, value: ReplacementValue::Del });
            let sep = Span { start: tree.child_span(i, params - 1).end, end: rest.start };
            if params > 0 && sep.valid() {
                added(s3, Replacement { span: sep, value: ReplacementValue::Del })
            } else {
                s3
            }
        } else {
            s2
        }
    }
}

/// A body first loses the separators of its dead members; when all are
/// dead, it becomes `{}`.
pub open spec fn body_effect(tree: &Tree, i: int, s: Seq<Replacement>, f: Seq<Replacement>) -> bool {
    let n = tree.nodes@[i].children@.len() as int;
    let s1 = with_delimiters(tree, i, 0, n, s);
    if all_children_dead(tree, i, 0, n, s1) {
        exists|v: String| v@ == empty_block() && f == added(s1, #[trigger] text_entry(tree.nodes@[i].span, v))
    } else {
        f == s1
    }
}

/// A step into the body of a function or an arrow function, or into the
/// value of a method: where a component's rendering starts.
pub open spec fn is_root_step(tree: &Tree, a: Ancestor) -> bool {
    match a {
        Ancestor::Field(p, Slot::Body) => p < tree.nodes@.len() && (tree.nodes@[p as int].kind is ArrowFunction
            || tree.nodes@[p as int].kind is Function),
        Ancestor::Field(p, Slot::Value) => is_method_step(tree, a),
        _ => false,
    }
}

/// A step into the value of a method.
pub open spec fn is_method_step(tree: &Tree, a: Ancestor) -> bool {
    match a {
        Ancestor::Field(p, Slot::Value) => p < tree.nodes@.len()
            && tree.nodes@[p as int].kind is MethodDefinition,
        _ => false,
    }
}

/// A step into the body of a class.
pub open spec fn is_class_step(tree: &Tree, a: Ancestor) -> bool {
    match a {
        Ancestor::Field(p, Slot::Body) => p < tree.nodes@.len() && tree.nodes@[p as int].kind is Class,
        _ => false,
    }
}

/// The first root step of `path` at or after `k`, or the path's length.
pub open spec fn first_root(tree: &Tree, path: Seq<Ancestor>, k: int) -> int
    decreases path.len() - k,
{
    if k < 0 || k >= path.len() {
        path.len() as int
    } else if is_root_step(tree, path[k]) {
        k
    } else {
        first_root(tree, path, k + 1)
    }
}

/// The first class step of `path` at or after `k`, or the path's length.
pub open spec fn first_class(tree: &Tree, path: Seq<Ancestor>, k: int) -> int
    decreases path.len() - k,
{
    if k < 0 || k >= path.len() {
        path.len() as int
    } else if is_class_step(tree, path[k]) {
        k
    } else {
        first_class(tree, path, k + 1)
    }
}

/// `f` is `s` with `span` written over by a text whose characters are `t`.
pub open spec fn writes_text(s: Seq<Replacement>, f: Seq<Replacement>, span: Span, t: Seq<char>) -> bool {
    exists|v: String| v@ == t && f == added(s, #[trigger] text_entry(span, v))
}

/// A function, named like the class if it has a name, that returns `null`.
pub open spec fn null_function_text(name: Option<String>) -> Seq<char> {
    match name {
        Some(n) => "function "@ + n@ + "() { return null; }"@,
        None => "function() { return null; }"@,
    }
}

/// The step of `path` that opens the component: the first root step, or the
/// method just above it when it is a method's function.
pub open spec fn component_step(tree: &Tree, path: Seq<Ancestor>) -> int {
    let f0 = first_root(tree, path, 0);
    if f0 + 1 < path.len() && is_method_step(tree, path[f0 + 1]) {
        f0 + 1
    } else {
        f0
    }
}

/// What a JSX node at `i` makes of the entries `s` when JSX is to go.
pub open spec fn jsx_effect(tree: &Tree, i: int, s: Seq<Replacement>, f: Seq<Replacement>) -> bool {
    let path = path_up(tree, i);
    let n = path.len() as int;
    let f0 = first_root(tree, path, 0);
    if f0 >= n {
        writes_text(s, f, tree.nodes@[i].span, "null"@)
    } else {
        let k = component_step(tree, path);
        let p = path[k].spec_node() as int;
        let pn = tree.nodes@[p];
        let m = pn.children@.len() as int;
        match pn.kind {
            NodeKind::ArrowFunction => writes_text(s, f, pn.span, "() => null"@),
            NodeKind::Function { has_body, .. } => if has_body && m > 0 {
                writes_text(s, f, tree.child_span(p, m - 1), "{ return null; }"@)
            } else {
                f == s
            },
            NodeKind::MethodDefinition { is_render } => {
                let c = first_class(tree, path, k + 1);
                if is_render && c < n {
                    let q = path[c].spec_node() as int;
                    match tree.nodes@[q].kind {
                        NodeKind::Class { name } => writes_text(
                            s,
                            f,
                            tree.nodes@[q].span,
                            null_function_text(name),
                        ),
                        _ => f == s,
                    }
                } else {
                    f == s
                }
            },
            _ => f == s,
        }
    }
}

/// One step of a walk at node `k`, from the entries `s` to `f`: a node that
/// an entry covers is passed over; a JSX node goes by `jsx_effect` when JSX
/// is to go; any other node by its rule.
pub open spec fn node_step(tree: &Tree, k: int, remove_jsx: bool, s: Seq<Replacement>, f: Seq<Replacement>) -> bool {
    if covered(s, tree.nodes@[k].span) {
        f == s
    } else if tree.nodes@[k].kind is Jsx {
        if remove_jsx {
            jsx_effect(tree, k, s, f)
        } else {
            f == s
        }
    } else {
        !blocks(tree, k, s) && match exit_effect(tree, k, s) {
            Some(t) => f == t,
            None => body_effect(tree, k, s, f),
        }
    }
}

/// Node `k` stops a walk over the entries `s`: it is not covered, and it is
/// an assignment or a pattern with a default whose value is dead, which no
/// rule handles.
pub open spec fn blocks(tree: &Tree, k: int, s: Seq<Replacement>) -> bool {
    &&& !covered(s, tree.nodes@[k].span)
    &&& (tree.nodes@[k].kind is Assignment || tree.nodes@[k].kind is AssignmentPattern)
    &&& tree.nodes@[k].children@.len() == 2
    &&& deleted(s, tree.child_span(k, 1))
}

/// `st` holds the entries before each of the nodes `0..=k`; the walk from
/// `s` steps over the nodes before `k` and stops at node `k`.
pub open spec fn walk_blocked(
    tree: &Tree,
    remove_jsx: bool,
    st: Seq<Seq<Replacement>>,
    s: Seq<Replacement>,
    k: int,
) -> bool {
    &&& 0 <= k < tree.nodes@.len()
    &&& st.len() == k + 1
    &&& st[0] == s
    &&& forall|j: int| 0 <= j < k ==> node_step(tree, j, remove_jsx, #[trigger] st[j], st[j + 1])
    &&& blocks(tree, k, st[k])
}


/// `st` holds the entries before each node of the tree and after the last,
/// from `s` to `f`, each step by `node_step`.
pub open spec fn walked(
    tree: &Tree,
    remove_jsx: bool,
    st: Seq<Seq<Replacement>>,
    s: Seq<Replacement>,
    f: Seq<Replacement>,
) -> bool {
    &&& st.len() == tree.nodes@.len() + 1
    &&& st[0] == s
    &&& st[tree.nodes@.len() as int] == f
    &&& forall|k: int| 0 <= k < tree.nodes@.len() ==> node_step(tree, k, remove_jsx, #[trigger] st[k], st[k + 1])
}

/// The bindings that have an entry but no reference left once the edits
/// `s` are applied, in order.
pub open spec fn dead_symbols_under(references: &References, s: Seq<Replacement>) -> Seq<Symbol> {
    references.map@.filter(dead_under(s)).map_values(|e: (Symbol, Vec<Reference>)| e.0)
}

/// Deletions of the declarations of `syms`, in order; a declaration span whose
/// start lies after its end is left out.
pub open spec fn decl_deletions(syms: Seq<Symbol>) -> Seq<Replacement>
    decreases syms.len(),
{
    if syms.len() == 0 {
        Seq::empty()
    } else {
        let rest = decl_deletions(syms.drop_last());
        if syms.last().decl.valid() {
            rest.push(Replacement { span: syms.last().decl, value: ReplacementValue::Del })
        } else {
            rest
        }
    }
}

/// One round of the fixpoint: a walk from `s`, then the declarations of the
/// bindings left without references are deleted, giving `f`.
pub open spec fn round(
    tree: &Tree,
    references: &References,
    remove_jsx: bool,
    s: Seq<Replacement>,
    f: Seq<Replacement>,
) -> bool {
    exists|st: Seq<Seq<Replacement>>, w: Seq<Replacement>|
        walked(tree, remove_jsx, st, s, w) && f == added_all(
            w,
            decl_deletions(dead_symbols_under(references, w)),
        )
}

/// `chain` runs from `s` to `f`, one round per step.
pub open spec fn rounds(
    tree: &Tree,
    references: &References,
    remove_jsx: bool,
    chain: Seq<Seq<Replacement>>,
    s: Seq<Replacement>,
    f: Seq<Replacement>,
) -> bool {
    &&& chain.len() >= 1
    &&& chain[0] == s
    &&& chain.last() == f
    &&& forall|k: int| 0 <= k < chain.len() - 1 ==> round(tree, references, remove_jsx, #[trigger] chain[k], chain[k + 1])
}

/// The text `{}`.
pub open spec fn empty_block() -> Seq<char> {
    seq!['{', '}']
}

/// The deletion of node `i`.
pub open spec fn node_deletion(tree: &Tree, i: int) -> Replacement {
    Replacement { span: tree.nodes@[i].span, value: ReplacementValue::Del }
}

/// Children `lo..hi` of node `i` are all dead in `s`.
pub open spec fn all_children_dead(tree: &Tree, i: int, lo: int, hi: int, s: Seq<Replacement>) -> bool {
    forall|k: int| lo <= k < hi ==> deleted(s, #[trigger] tree.child_span(i, k))
}

/// Node `i` is deleted when its child `k` exists and is dead.
pub open spec fn delete_if_dead(tree: &Tree, i: int, k: int, s: Seq<Replacement>) -> Seq<Replacement> {
    if 0 <= k < tree.nodes@[i].children@.len() && deleted(s, tree.child_span(i, k)) {
        added(s, node_deletion(tree, i))
    } else {
        s
    }
}

/// Node `i` is deleted when children `lo..hi` are all dead (and, with
/// `nonempty`, there is at least one).
pub open spec fn delete_if_all(
    tree: &Tree,
    i: int,
    lo: int,
    hi: int,
    nonempty: bool,
    s: Seq<Replacement>,
) -> Seq<Replacement> {
    if (!nonempty || lo < hi) && all_children_dead(tree, i, lo, hi, s) {
        added(s, node_deletion(tree, i))
    } else {
        s
    }
}

/// The separators of children `lo..hi` removed after the dead ones.
pub open spec fn with_delimiters(tree: &Tree, i: int, lo: int, hi: int, s: Seq<Replacement>) -> Seq<Replacement> {
    added_all(s, delimiter_marks(tree, i, lo, hi, s))
}

/// What the rule of node `i` makes of the entries `s`; `None` for bodies,
/// whose rule writes a text and is stated by `body_effect`.
pub open spec fn exit_effect(tree: &Tree, i: int, s: Seq<Replacement>) -> Option<Seq<Replacement>> {
    let node = tree.nodes@[i];
    let n = node.children@.len() as int;
    let dead = |k: int| deleted(s, tree.child_span(i, k));
    let undefined = |sp: Span| Replacement { span: sp, value: ReplacementValue::Undefined };
    match node.kind {
        NodeKind::Program => Some(with_delimiters(tree, i, 0, n, s)),
        NodeKind::LogicalAnd => Some(if n == 2 && (dead(0) || dead(1)) {
            added(s, undefined(node.span))
        } else {
            s
        }),
        NodeKind::LogicalOr => Some(if n != 2 {
            s
        } else if dead(0) && dead(1) {
            added(s, undefined(node.span))
        } else if dead(0) {
            added(s, Replacement { span: node.span, value: ReplacementValue::Span(tree.child_span(i, 1)) })
        } else if dead(1) {
            added(s, Replacement { span: node.span, value: ReplacementValue::Span(tree.child_span(i, 0)) })
        } else {
            s
        }),
        NodeKind::Conditional => Some(if n != 3 {
            s
        } else if dead(2) && (dead(1) || dead(0)) {
            added(s, undefined(node.span))
        } else if dead(1) && !dead(0) {
            added(s, undefined(tree.child_span(i, 1)))
        } else if dead(2) && !dead(0) {
            added(s, undefined(tree.child_span(i, 2)))
        } else if dead(0) {
            added(s, Replacement { span: node.span, value: ReplacementValue::Span(tree.child_span(i, 2)) })
        } else {
            s
        }),
        NodeKind::Assignment | NodeKind::AssignmentPattern => Some(if n == 2 {
            delete_if_dead(tree, i, 0, s)
        } else {
            s
        }),
        NodeKind::ArrayPattern => Some(delete_if_all(tree, i, 0, n, false, s)),
        NodeKind::ObjectTarget => Some(if all_children_dead(tree, i, 0, n, s) {
            added(s, node_deletion(tree, i))
        } else {
            with_delimiters(tree, i, 0, n, s)
        }),
        NodeKind::ObjectPattern | NodeKind::VariableDeclaration => {
            let s1 = delete_if_all(tree, i, 0, n, false, s);
            Some(with_delimiters(tree, i, 0, n, s1))
        },
        NodeKind::ShorthandTarget | NodeKind::Parenthesized | NodeKind::VariableDeclarator
        | NodeKind::ExpressionStatement => Some(delete_if_dead(tree, i, 0, s)),
        NodeKind::PropertyPattern | NodeKind::MethodDefinition { .. } => Some(
            delete_if_dead(tree, i, 1, delete_if_dead(tree, i, 0, s)),
        ),
        NodeKind::Sequence => {
            let s1 = if n > 0 && dead(n - 1) {
                added(s, undefined(tree.child_span(i, n - 1)))
            } else {
                s
            };
            Some(with_delimiters(tree, i, 0, n, s1))
        },
        NodeKind::Debugger | NodeKind::TsInterface => Some(added(s, node_deletion(tree, i))),
        NodeKind::ExportNamed { has_declaration } => {
            let specs = if has_declaration && n > 0 { n - 1 } else { n };
            let s1 = delete_if_all(tree, i, 0, specs, true, s);
            let s2 = if has_declaration && n > 0 { delete_if_dead(tree, i, n - 1, s1) } else { s1 };
            Some(with_delimiters(tree, i, 0, specs, s2))
        },
        NodeKind::Import => {
            let s1 = delete_if_all(tree, i, 0, n, true, s);
            Some(with_delimiters(tree, i, 0, n, s1))
        },
        NodeKind::Function { has_rest, has_body } => Some(
            function_effect(tree, i, has_rest, has_body, s),
        ),
        NodeKind::FunctionBody | NodeKind::ClassBody => None,
        _ => Some(s),
    }
}

} // verus!

verus! {

/// A round from `s` that changes its entries.
pub open spec fn changes_by_round(
    tree: &Tree,
    references: &References,
    remove_jsx: bool,
    s: Seq<Replacement>,
    f: Seq<Replacement>,
) -> bool {
    round(tree, references, remove_jsx, s, f) && !same_entries(s, f)
}

/// `chain` runs from `s` to `f`, one round per step, each changing the
/// entries.
pub open spec fn changing_rounds(
    tree: &Tree,
    references: &References,
    remove_jsx: bool,
    chain: Seq<Seq<Replacement>>,
    s: Seq<Replacement>,
    f: Seq<Replacement>,
) -> bool {
    &&& chain.len() >= 1
    &&& chain[0] == s
    &&& chain.last() == f
    &&& forall|k: int|
        0 <= k < chain.len() - 1 ==> changes_by_round(tree, references, remove_jsx, #[trigger] chain[k], chain[k + 1])
}

/// `f` is reached from `s` by rounds that each changed the entries, and one
/// more round from `f` leaves them as they are.
pub open spec fn reached_fixpoint(
    tree: &Tree,
    references: &References,
    remove_jsx: bool,
    s: Seq<Replacement>,
    f: Seq<Replacement>,
) -> bool {
    &&& exists|chain: Seq<Seq<Replacement>>| changing_rounds(tree, references, remove_jsx, chain, s, f)
    &&& exists|g: Seq<Replacement>| round(tree, references, remove_jsx, f, g) && same_entries(f, g)
}

} // verus!
