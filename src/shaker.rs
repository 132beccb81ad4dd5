use vstd::prelude::*;
use vstd::string::StringExecFns;
use crate::references::References;
use crate::replacements::{
    Replacement, ReplacementValue, Replacements, added, covered, deleted, entry_fits, fits,
    lemma_added_fits, lemma_added_keeps_cover, keeps_cover, rejects, render, sorted_disjoint, added_all, same_entries, copy_entries,
    entries_match,
};
use vstd::utf8::{encode_utf8, valid_utf8};
use crate::span::Span;
use crate::rules::{
    body_effect, component_step, decl_deletions, delete_if_all, delete_if_dead, delimiter_marks,
    dead_symbols_under, empty_block, exit_effect, first_class, first_root, function_effect,
    is_method_step, is_root_step, jsx_effect, node_step, null_function_text, pair_marks,
    param_deletions, round, rounds, blocks, reached_fixpoint, changing_rounds, changes_by_round, text_entry, walk_blocked, walked,
    writes_text,
};
use crate::tree::{Ancestor, EnterAction, NodeKind, Slot, Tree, path_up};

verus! {

#[derive(Clone, Copy, Debug, PartialEq, Eq, Structural)]
pub struct ShakerOptions {
    /// Replace JSX, and the components that render it, by `null`.
    pub remove_jsx_and_hooks: bool,
}

/// Why a shake stops without a result.
#[derive(Clone, Copy, Debug, PartialEq, Eq, Structural)]
pub enum ShakeError {
    /// The node at this index has a shape that no rule handles: the value of
    /// an assignment, or the default of a pattern, is dead.
    NotImplemented(usize),
    /// A span of the tree, of a binding or of the seed lies beyond the text.
    SpanOutOfRange,
    /// No fixpoint was reached within the given number of passes.
    NoFixpoint,
}

/// Every node span of the tree lies inside a text of `len` bytes.
pub open spec fn tree_fits(tree: &Tree, len: int) -> bool {
    forall|i: int| 0 <= i < tree.nodes@.len() ==> (#[trigger] tree.nodes@[i]).span.end <= len
}

/// The state of one shake: the edits so far and the bindings' occurrences.
pub struct Shaker {
    /// Whether an edit was accepted since the flag was last cleared.
    pub changed: bool,
    pub options: ShakerOptions,
    pub references: References,
    pub replacements: Replacements,
    pub source_len: u32,
}

impl Shaker {
    pub open spec fn inv(&self) -> bool {
        &&& self.replacements.wf()
        &&& fits(self.replacements.list@, self.source_len as int)
        &&& self.references.wf()
    }

    /// The parts that a rule leaves alone.
    pub open spec fn same_frame(&self, other: &Shaker) -> bool {
        &&& self.options == other.options
        &&& self.references == other.references
        &&& self.source_len == other.source_len
    }

    /// The first entry that covers `span` deletes it.
    pub open spec fn dead(&self, span: Span) -> bool {
        deleted(self.replacements.list@, span)
    }

    pub fn new(
        references: References,
        replacements: Replacements,
        options: ShakerOptions,
        source_len: u32,
    ) -> (r: Shaker)
        ensures
            r.references == references,
            r.replacements == replacements,
            r.options == options,
            r.source_len == source_len,
            !r.changed,
    {
        Shaker { changed: false, options, references, replacements, source_len }
    }

    fn is_dead(&self, span: Span) -> (r: bool)
        ensures
            r == self.dead(span),
    {
        self.replacements.is_deleted(span)
    }

    fn is_marked(&self, span: Span) -> (r: bool)
        ensures
            r == covered(self.replacements.list@, span),
    {
        self.replacements.has(span)
    }

    /// Records `span -> value`; a span whose start lies after its end is
    /// ignored.
    fn mark(&mut self, span: Span, value: ReplacementValue)
        requires
            old(self).inv(),
            entry_fits(Replacement { span, value }, old(self).source_len as int),
        ensures
            final(self).inv(),
            final(self).same_frame(old(self)),
            final(self).replacements.list@ == if span.valid() {
                added(old(self).replacements.list@, Replacement { span, value })
            } else {
                old(self).replacements.list@
            },
            final(self).changed == (old(self).changed || (span.valid() && !rejects(
                old(self).replacements.list@,
                Replacement { span, value },
            ))),
            keeps_cover(old(self).replacements.list@, final(self).replacements.list@),
    {
        if span.start <= span.end {
            proof {
                lemma_added_fits(
                    self.replacements.list@,
                    Replacement { span, value },
                    self.source_len as int,
                );
            }
            proof {
                lemma_added_keeps_cover(self.replacements.list@, Replacement { span, value });
            }
            let c = self.replacements.add_replacement(span, value);
            self.changed = self.changed || c;
        }
    }

    fn mark_deleted(&mut self, span: Span)
        requires
            old(self).inv(),
            span.end <= old(self).source_len,
        ensures
            final(self).inv(),
            final(self).same_frame(old(self)),
            old(self).changed ==> final(self).changed,
            keeps_cover(old(self).replacements.list@, final(self).replacements.list@),
            span.valid() ==> final(self).replacements.list@ == added(
                old(self).replacements.list@,
                Replacement { span, value: ReplacementValue::Del },
            ),
            !span.valid() ==> final(self).replacements.list@ == old(self).replacements.list@,
    {
        self.mark(span, ReplacementValue::Del)
    }

    fn mark_undefined(&mut self, span: Span)
        requires
            old(self).inv(),
            span.end <= old(self).source_len,
        ensures
            final(self).inv(),
            final(self).same_frame(old(self)),
            old(self).changed ==> final(self).changed,
            keeps_cover(old(self).replacements.list@, final(self).replacements.list@),
            span.valid() ==> final(self).replacements.list@ == added(
                old(self).replacements.list@,
                Replacement { span, value: ReplacementValue::Undefined },
            ),
            !span.valid() ==> final(self).replacements.list@ == old(self).replacements.list@,
    {
        self.mark(span, ReplacementValue::Undefined)
    }

    fn mark_text(&mut self, span: Span, text: &str)
        requires
            old(self).inv(),
            span.end <= old(self).source_len,
        ensures
            final(self).inv(),
            final(self).same_frame(old(self)),
            old(self).changed ==> final(self).changed,
            keeps_cover(old(self).replacements.list@, final(self).replacements.list@),
            span.valid() ==> exists|v: String|
                v@ == text@ && final(self).replacements.list@ == added(
                    old(self).replacements.list@,
                    #[trigger] text_entry(span, v),
                ),
    {
        let v = text.to_owned();
        let ghost g = v;
        self.mark(span, ReplacementValue::Str(v));
        proof {
            if span.valid() {
                assert(final(self).replacements.list@ == added(
                    old(self).replacements.list@,
                    text_entry(span, g),
                ));
            }
        }
    }

    fn mark_moved(&mut self, span: Span, another: Span)
        requires
            old(self).inv(),
            span.end <= old(self).source_len,
            another.valid(),
            another.end <= old(self).source_len,
        ensures
            final(self).inv(),
            final(self).same_frame(old(self)),
            old(self).changed ==> final(self).changed,
            keeps_cover(old(self).replacements.list@, final(self).replacements.list@),
            span.valid() ==> final(self).replacements.list@ == added(
                old(self).replacements.list@,
                Replacement { span, value: ReplacementValue::Span(another) },
            ),
    {
        self.mark(span, ReplacementValue::Span(another))
    }

    /// The span of child `k` of node `i`.
    fn child(&self, tree: &Tree, i: usize, k: usize) -> (r: Span)
        requires
            tree.wf(),
            i < tree.nodes@.len(),
            k < tree.nodes@[i as int].children@.len(),
        ensures
            r == tree.child_span(i as int, k as int),
    {
        let c = tree.nodes[i].children[k];
        tree.nodes[c].span
    }

    /// Whether every child of node `i` at a position in `lo..hi` is dead.
    fn all_dead(&self, tree: &Tree, i: usize, lo: usize, hi: usize) -> (r: bool)
        requires
            tree.wf(),
            i < tree.nodes@.len(),
            lo <= hi <= tree.nodes@[i as int].children@.len(),
        ensures
            r == forall|k: int| lo <= k < hi ==> self.dead(#[trigger] tree.child_span(i as int, k)),
    {
        let mut k = lo;
        while k < hi
            invariant
                tree.wf(),
                i < tree.nodes@.len(),
                lo <= k <= hi <= tree.nodes@[i as int].children@.len(),
                forall|j: int| lo <= j < k ==> self.dead(#[trigger] tree.child_span(i as int, j)),
            decreases hi - k,
        {
            if !self.is_dead(self.child(tree, i, k)) {
                return false;
            }
            k = k + 1;
        }
        true
    }

    /// After siblings were deleted one by one, deletes the separator that
    /// each dead sibling leaves: the bytes from its end to the next sibling's
    /// start, and for a dead last sibling the bytes before it. Which siblings
    /// are dead is read before any separator is marked.
    pub fn remove_delimiters(&mut self, tree: &Tree, i: usize, lo: usize, hi: usize)
        requires
            old(self).inv(),
            tree.wf(),
            tree_fits(tree, old(self).source_len as int),
            i < tree.nodes@.len(),
            lo <= hi <= tree.nodes@[i as int].children@.len(),
        ensures
            final(self).inv(),
            final(self).same_frame(old(self)),
            old(self).changed ==> final(self).changed,
            keeps_cover(old(self).replacements.list@, final(self).replacements.list@),
            final(self).replacements.list@ == added_all(
                old(self).replacements.list@,
                delimiter_marks(tree, i as int, lo as int, hi as int, old(self).replacements.list@),
            ),
    {
        let ghost s0 = self.replacements.list@;
        if hi - lo < 2 {
            assert(delimiter_marks(tree, i as int, lo as int, hi as int, s0) =~= Seq::empty());
            return;
        }
        let mut dead: Vec<bool> = Vec::new();
        let mut j = lo;
        while j < hi
            invariant
                tree.wf(),
                i < tree.nodes@.len(),
                lo <= j <= hi <= tree.nodes@[i as int].children@.len(),
                self.replacements.list@ == s0,
                dead@.len() == j - lo,
                forall|m: int| lo <= m < j ==> dead@[m - lo] == deleted(s0, #[trigger] tree.child_span(i as int, m)),
            decreases hi - j,
        {
            dead.push(self.is_dead(self.child(tree, i, j)));
            j = j + 1;
        }
        let mut k = lo;
        while k + 1 < hi
            invariant
                self.inv(),
                self.same_frame(old(self)),
                old(self).changed ==> self.changed,
                keeps_cover(old(self).replacements.list@, self.replacements.list@),
                tree.wf(),
                tree_fits(tree, self.source_len as int),
                i < tree.nodes@.len(),
                lo <= k < hi <= tree.nodes@[i as int].children@.len(),
                dead@.len() == hi - lo,
                forall|m: int| lo <= m < hi ==> dead@[m - lo] == deleted(s0, #[trigger] tree.child_span(i as int, m)),
                self.replacements.list@ == added_all(s0, pair_marks(tree, i as int, lo as int, k as int, s0)),
            decreases hi - k,
        {
            let prev = self.child(tree, i, k);
            let next = self.child(tree, i, k + 1);
            let ghost before = pair_marks(tree, i as int, lo as int, k as int, s0);
            if dead[k - lo] && prev.end <= next.start {
                self.mark_deleted(Span::new(prev.end, next.start));
            }
            proof {
                let after = pair_marks(tree, i as int, lo as int, k + 1, s0);
                if deleted(s0, tree.child_span(i as int, k as int)) && prev.end <= next.start {
                    assert(after == before.push(
                        Replacement { span: Span { start: prev.end, end: next.start }, value: ReplacementValue::Del },
                    ));
                    assert(after.drop_last() == before);
                } else {
                    assert(after == before);
                }
            }
            k = k + 1;
        }
        let penult = self.child(tree, i, hi - 2);
        let last = self.child(tree, i, hi - 1);
        let ghost pm = pair_marks(tree, i as int, lo as int, (hi - 1) as int, s0);
        if dead[hi - 1 - lo] && penult.end <= last.start {
            self.mark_deleted(Span::new(penult.end, last.start));
            proof {
                let all = delimiter_marks(tree, i as int, lo as int, hi as int, s0);
                assert(all.drop_last() =~= pm);
            }
        } else {
            proof {
                assert(delimiter_marks(tree, i as int, lo as int, hi as int, s0) =~= pm);
            }
        }
    }

    /// `a && b` with either side dead becomes `undefined`; `a || b` and
    /// `a ?? b` become the live side, or `undefined` when both are dead.
    pub fn exit_logical_expression(&mut self, tree: &Tree, i: usize)
        requires
            old(self).inv(),
            tree.wf(),
            tree_fits(tree, old(self).source_len as int),
            i < tree.nodes@.len(),
            tree.nodes@[i as int].kind is LogicalAnd || tree.nodes@[i as int].kind is LogicalOr,
            tree.nodes@[i as int].children@.len() == 2,
        ensures
            final(self).inv(),
            final(self).same_frame(old(self)),
            old(self).changed ==> final(self).changed,
            keeps_cover(old(self).replacements.list@, final(self).replacements.list@),
            ({
                let s = old(self).replacements.list@;
                let node = tree.nodes@[i as int].span;
                let left = tree.child_span(i as int, 0);
                let right = tree.child_span(i as int, 1);
                let ld = old(self).dead(left);
                let rd = old(self).dead(right);
                final(self).replacements.list@ == if tree.nodes@[i as int].kind is LogicalAnd {
                    if ld || rd {
                        added(s, Replacement { span: node, value: ReplacementValue::Undefined })
                    } else {
                        s
                    }
                } else if ld && rd {
                    added(s, Replacement { span: node, value: ReplacementValue::Undefined })
                } else if ld {
                    added(s, Replacement { span: node, value: ReplacementValue::Span(right) })
                } else if rd {
                    added(s, Replacement { span: node, value: ReplacementValue::Span(left) })
                } else {
                    s
                }
            }),
    {
        let node = tree.nodes[i].span;
        let left = self.child(tree, i, 0);
        let right = self.child(tree, i, 1);
        let ld = self.is_dead(left);
        let rd = self.is_dead(right);
        assert(tree.nodes@[i as int].children@[0] < i);
        assert(tree.nodes@[i as int].children@[1] < i);
        match tree.nodes[i].kind {
            NodeKind::LogicalAnd => {
                if ld || rd {
                    self.mark_undefined(node);
                }
            },
            _ => {
                if ld && rd {
                    self.mark_undefined(node);
                } else if ld {
                    self.mark_moved(node, right);
                } else if rd {
                    self.mark_moved(node, left);
                }
            },
        }
    }

    /// `t ? c : e`: with `e` dead and `c` or `t` dead, the whole becomes
    /// `undefined`; with `t` live, a dead `c` or a dead `e` becomes
    /// `undefined`; a dead `t` collapses the whole to `e`.
    pub fn exit_conditional_expression(&mut self, tree: &Tree, i: usize)
        requires
            old(self).inv(),
            tree.wf(),
            tree_fits(tree, old(self).source_len as int),
            i < tree.nodes@.len(),
            tree.nodes@[i as int].children@.len() == 3,
        ensures
            final(self).inv(),
            final(self).same_frame(old(self)),
            old(self).changed ==> final(self).changed,
            keeps_cover(old(self).replacements.list@, final(self).replacements.list@),
            ({
                let s = old(self).replacements.list@;
                let node = tree.nodes@[i as int].span;
                let t = tree.child_span(i as int, 0);
                let c = tree.child_span(i as int, 1);
                let e = tree.child_span(i as int, 2);
                let (td, cd, ed) = (old(self).dead(t), old(self).dead(c), old(self).dead(e));
                final(self).replacements.list@ == if ed && (cd || td) {
                    added(s, Replacement { span: node, value: ReplacementValue::Undefined })
                } else if cd && !td {
                    added(s, Replacement { span: c, value: ReplacementValue::Undefined })
                } else if ed && !td {
                    added(s, Replacement { span: e, value: ReplacementValue::Undefined })
                } else if td {
                    added(s, Replacement { span: node, value: ReplacementValue::Span(e) })
                } else {
                    s
                }
            }),
    {
        let node = tree.nodes[i].span;
        let t = self.child(tree, i, 0);
        let c = self.child(tree, i, 1);
        let e = self.child(tree, i, 2);
        assert(tree.nodes@[i as int].children@[0] < i);
        assert(tree.nodes@[i as int].children@[1] < i);
        assert(tree.nodes@[i as int].children@[2] < i);
        let td = self.is_dead(t);
        let cd = self.is_dead(c);
        let ed = self.is_dead(e);
        if ed && (cd || td) {
            self.mark_undefined(node);
        } else if cd && !td {
            self.mark_undefined(c);
        } else if ed && !td {
            self.mark_undefined(e);
        } else if td {
            self.mark_moved(node, e);
        }
    }

    /// The last expression of a sequence, when dead, becomes `undefined`:
    /// a sequence keeps a value.
    pub fn exit_sequence_tail(&mut self, tree: &Tree, i: usize)
        requires
            old(self).inv(),
            tree.wf(),
            tree_fits(tree, old(self).source_len as int),
            i < tree.nodes@.len(),
        ensures
            final(self).inv(),
            final(self).same_frame(old(self)),
            old(self).changed ==> final(self).changed,
            keeps_cover(old(self).replacements.list@, final(self).replacements.list@),
            ({
                let s = old(self).replacements.list@;
                let n = tree.nodes@[i as int].children@.len();
                let last = tree.child_span(i as int, n - 1);
                final(self).replacements.list@ == if n > 0 && old(self).dead(last) {
                    added(s, Replacement { span: last, value: ReplacementValue::Undefined })
                } else {
                    s
                }
            }),
    {
        let n = tree.nodes[i].children.len();
        if n > 0 {
            let last = self.child(tree, i, n - 1);
            assert(tree.nodes@[i as int].children@[n - 1] < i);
            if self.is_dead(last) {
                self.mark_undefined(last);
            }
        }
    }

    /// An array pattern whose present elements are all dead is deleted; one
    /// with a live element keeps its dead slots as holes.
    pub fn exit_array_pattern(&mut self, tree: &Tree, i: usize)
        requires
            old(self).inv(),
            tree.wf(),
            tree_fits(tree, old(self).source_len as int),
            i < tree.nodes@.len(),
        ensures
            final(self).inv(),
            final(self).same_frame(old(self)),
            old(self).changed ==> final(self).changed,
            keeps_cover(old(self).replacements.list@, final(self).replacements.list@),
            final(self).replacements.list@ == if forall|k: int|
                0 <= k < tree.nodes@[i as int].children@.len() ==> old(self).dead(
                    #[trigger] tree.child_span(i as int, k),
                ) {
                added(
                    old(self).replacements.list@,
                    Replacement { span: tree.nodes@[i as int].span, value: ReplacementValue::Del },
                )
            } else {
                old(self).replacements.list@
            },
    {
        let n = tree.nodes[i].children.len();
        if self.all_dead(tree, i, 0, n) {
            self.mark_deleted(tree.nodes[i].span);
        }
    }

    /// Deletes node `i` when its child at position `k` is dead.
    fn delete_if_child_dead(&mut self, tree: &Tree, i: usize, k: usize)
        requires
            old(self).inv(),
            tree.wf(),
            tree_fits(tree, old(self).source_len as int),
            i < tree.nodes@.len(),
        ensures
            final(self).inv(),
            final(self).same_frame(old(self)),
            old(self).changed ==> final(self).changed,
            keeps_cover(old(self).replacements.list@, final(self).replacements.list@),
            final(self).replacements.list@ == delete_if_dead(tree, i as int, k as int, old(self).replacements.list@),
    {
        if k < tree.nodes[i].children.len() && self.is_dead(self.child(tree, i, k)) {
            self.mark_deleted(tree.nodes[i].span);
        }
    }

    /// Deletes node `i` when its children at positions `lo..hi` are all dead,
    /// and there is at least one when `nonempty` asks for it.
    fn delete_if_all_dead(&mut self, tree: &Tree, i: usize, lo: usize, hi: usize, nonempty: bool)
        requires
            old(self).inv(),
            tree.wf(),
            tree_fits(tree, old(self).source_len as int),
            i < tree.nodes@.len(),
            lo <= hi <= tree.nodes@[i as int].children@.len(),
        ensures
            final(self).inv(),
            final(self).same_frame(old(self)),
            old(self).changed ==> final(self).changed,
            keeps_cover(old(self).replacements.list@, final(self).replacements.list@),
            final(self).replacements.list@ == delete_if_all(
                tree,
                i as int,
                lo as int,
                hi as int,
                nonempty,
                old(self).replacements.list@,
            ),
    {
        if (!nonempty || lo < hi) && self.all_dead(tree, i, lo, hi) {
            self.mark_deleted(tree.nodes[i].span);
        }
    }

    /// Once a function's body is marked, its parameters go, with the
    /// separators between them and before the rest parameter.
    fn exit_function(&mut self, tree: &Tree, i: usize, has_rest: bool, has_body: bool)
        requires
            old(self).inv(),
            tree.wf(),
            tree_fits(tree, old(self).source_len as int),
            i < tree.nodes@.len(),
        ensures
            final(self).inv(),
            final(self).same_frame(old(self)),
            old(self).changed ==> final(self).changed,
            keeps_cover(old(self).replacements.list@, final(self).replacements.list@),
            final(self).replacements.list@ == function_effect(
                tree,
                i as int,
                has_rest,
                has_body,
                old(self).replacements.list@,
            ),
    {
        let ghost s0 = self.replacements.list@;
        let n = tree.nodes[i].children.len();
        let extra: usize = if has_rest { 1 } else { 0 };
        if !has_body || n < 1 + extra {
            return;
        }
        let body = self.child(tree, i, n - 1);
        if !self.is_marked(body) {
            return;
        }
        let params = n - 1 - extra;
        let mut k: usize = 0;
        while k < params
            invariant
                self.inv(),
                self.same_frame(old(self)),
                old(self).changed ==> self.changed,
                keeps_cover(old(self).replacements.list@, self.replacements.list@),
                tree.wf(),
                tree_fits(tree, self.source_len as int),
                i < tree.nodes@.len(),
                params < n == tree.nodes@[i as int].children@.len(),
                k <= params,
                self.replacements.list@ == added_all(s0, param_deletions(tree, i as int, k as int)),
            decreases params - k,
        {
            assert(tree.nodes@[i as int].children@[k as int] < i);
            self.mark_deleted(self.child(tree, i, k));
            proof {
                let pd = param_deletions(tree, i as int, k + 1);
                assert(pd.drop_last() == param_deletions(tree, i as int, k as int));
            }
            k = k + 1;
        }
        self.remove_delimiters(tree, i, 0, params);
        if has_rest {
            let rest = self.child(tree, i, params);
            assert(tree.nodes@[i as int].children@[params as int] < i);
            self.mark_deleted(rest);
            if params > 0 {
                let last = self.child(tree, i, params - 1);
                assert(tree.nodes@[i as int].children@[params - 1] < i);
                self.mark_deleted(Span::new(last.end, rest.start));
            }
        }
    }

    /// A body whose statements or members are all dead is replaced by `{}`.
    fn exit_body(&mut self, tree: &Tree, i: usize)
        requires
            old(self).inv(),
            tree.wf(),
            tree_fits(tree, old(self).source_len as int),
            i < tree.nodes@.len(),
        ensures
            final(self).inv(),
            final(self).same_frame(old(self)),
            old(self).changed ==> final(self).changed,
            keeps_cover(old(self).replacements.list@, final(self).replacements.list@),
            body_effect(tree, i as int, old(self).replacements.list@, final(self).replacements.list@),
    {
        let n = tree.nodes[i].children.len();
        self.remove_delimiters(tree, i, 0, n);
        if self.all_dead(tree, i, 0, n) {
            let text = "{}";
            proof {
                reveal_strlit("{}");
                assert(text@ =~= empty_block());
            }
            self.mark_text(tree.nodes[i].span, text);
        }
    }

    /// The rule that runs on node `i` once its children are done.
    pub fn exit_node(&mut self, tree: &Tree, i: usize) -> (r: Result<(), ShakeError>)
        requires
            old(self).inv(),
            tree.wf(),
            tree_fits(tree, old(self).source_len as int),
            i < tree.nodes@.len(),
        ensures
            final(self).inv(),
            final(self).same_frame(old(self)),
            old(self).changed ==> final(self).changed,
            keeps_cover(old(self).replacements.list@, final(self).replacements.list@),
            r matches Err(e) ==> e == ShakeError::NotImplemented(i),
            r is Err ==> final(self).replacements.list@ == old(self).replacements.list@,
            r is Ok ==> (exit_effect(tree, i as int, old(self).replacements.list@) matches Some(t)
                ==> final(self).replacements.list@ == t),
            (tree.nodes@[i as int].kind is FunctionBody || tree.nodes@[i as int].kind is ClassBody)
                ==> body_effect(
                tree,
                i as int,
                old(self).replacements.list@,
                final(self).replacements.list@,
            ),
            r is Err <==> ((tree.nodes@[i as int].kind is Assignment
                || tree.nodes@[i as int].kind is AssignmentPattern)
                && tree.nodes@[i as int].children@.len() == 2 && old(self).dead(
                tree.child_span(i as int, 1),
            )),
    {
        let n = tree.nodes[i].children.len();
        match &tree.nodes[i].kind {
            NodeKind::Program => {
                self.remove_delimiters(tree, i, 0, n);
            },
            NodeKind::LogicalAnd | NodeKind::LogicalOr => {
                if n == 2 {
                    self.exit_logical_expression(tree, i);
                }
            },
            NodeKind::Conditional => {
                if n == 3 {
                    self.exit_conditional_expression(tree, i);
                }
            },
            NodeKind::Assignment | NodeKind::AssignmentPattern => {
                if n == 2 {
                    assert(tree.nodes@[i as int].children@[1] < i);
                    if self.is_dead(self.child(tree, i, 1)) {
                        return Err(ShakeError::NotImplemented(i));
                    }
                    self.delete_if_child_dead(tree, i, 0);
                }
            },
            NodeKind::ArrayPattern => {
                self.exit_array_pattern(tree, i);
            },
            NodeKind::ObjectTarget => {
                if self.all_dead(tree, i, 0, n) {
                    self.mark_deleted(tree.nodes[i].span);
                } else {
                    self.remove_delimiters(tree, i, 0, n);
                }
            },
            NodeKind::ObjectPattern | NodeKind::VariableDeclaration => {
                self.delete_if_all_dead(tree, i, 0, n, false);
                self.remove_delimiters(tree, i, 0, n);
            },
            NodeKind::ShorthandTarget | NodeKind::Parenthesized | NodeKind::VariableDeclarator
            | NodeKind::ExpressionStatement => {
                self.delete_if_child_dead(tree, i, 0);
            },
            NodeKind::PropertyPattern | NodeKind::MethodDefinition { .. } => {
                self.delete_if_child_dead(tree, i, 0);
                self.delete_if_child_dead(tree, i, 1);
            },
            NodeKind::Sequence => {
                self.exit_sequence_tail(tree, i);
                self.remove_delimiters(tree, i, 0, n);
            },
            NodeKind::Debugger | NodeKind::TsInterface => {
                self.mark_deleted(tree.nodes[i].span);
            },
            NodeKind::Function { has_rest, has_body } => {
                self.exit_function(tree, i, *has_rest, *has_body);
            },
            NodeKind::FunctionBody | NodeKind::ClassBody => {
                self.exit_body(tree, i);
            },
            NodeKind::ExportNamed { has_declaration } => {
                let specs = if *has_declaration && n > 0 {
                    n - 1
                } else {
                    n
                };
                self.delete_if_all_dead(tree, i, 0, specs, true);
                if *has_declaration && n > 0 {
                    self.delete_if_child_dead(tree, i, n - 1);
                }
                self.remove_delimiters(tree, i, 0, specs);
            },
            NodeKind::Import => {
                self.delete_if_all_dead(tree, i, 0, n, true);
                self.remove_delimiters(tree, i, 0, n);
            },
            _ => {},
        }
        Ok(())
    }

    /// A JSX node, when JSX is to go: the nearest enclosing component is
    /// replaced by one that renders `null` (an arrow function becomes
    /// `() => null`, a function body `{ return null; }`, a class whose `render`
    /// method holds the node a function that returns `null`); outside any
    /// function the node itself becomes `null`.
    pub fn mark_react_component_as_unnecessary(&mut self, tree: &Tree, i: usize)
        requires
            old(self).inv(),
            tree.wf(),
            tree_fits(tree, old(self).source_len as int),
            i < tree.nodes@.len(),
        ensures
            final(self).inv(),
            final(self).same_frame(old(self)),
            old(self).changed ==> final(self).changed,
            keeps_cover(old(self).replacements.list@, final(self).replacements.list@),
            (!old(self).options.remove_jsx_and_hooks || covered(
                old(self).replacements.list@,
                tree.nodes@[i as int].span,
            )) ==> final(self).replacements.list@ == old(self).replacements.list@,
            (!old(self).options.remove_jsx_and_hooks || covered(
                old(self).replacements.list@,
                tree.nodes@[i as int].span,
            )) ==> final(self).changed == old(self).changed,
            (old(self).options.remove_jsx_and_hooks && !covered(
                old(self).replacements.list@,
                tree.nodes@[i as int].span,
            )) ==> jsx_effect(
                tree,
                i as int,
                old(self).replacements.list@,
                final(self).replacements.list@,
            ),
    {
        if !self.options.remove_jsx_and_hooks {
            return;
        }
        let span = tree.nodes[i].span;
        if self.is_marked(span) {
            return;
        }
        let ancestors = tree.ancestors(i);
        let ghost path = ancestors@;
        let n = ancestors.len();
        let mut f: usize = 0;
        while f < n && !self.is_component_root(tree, ancestors[f])
            invariant
                n == ancestors@.len(),
                f <= n,
                tree.wf(),
                forall|k: int| 0 <= k < n ==> (#[trigger] ancestors@[k]).node() < tree.nodes@.len(),
                first_root(tree, ancestors@, 0) == first_root(tree, ancestors@, f as int),
            decreases n - f,
        {
            f = f + 1;
        }
        if f == n {
            let text = "null";
            self.mark_text(span, text);
            return;
        }
        if f + 1 < n && self.is_method_value(tree, ancestors[f + 1]) {
            f = f + 1;
        }
        let a = ancestors[f];
        let p = a.node();
        let pn = &tree.nodes[p];
        assert(f as int == component_step(tree, ancestors@));
        match &pn.kind {
            NodeKind::ArrowFunction => {
                self.mark_text(pn.span, "() => null");
            },
            NodeKind::Function { has_body, .. } => {
                let m = pn.children.len();
                if *has_body && m > 0 {
                    let body = self.child(tree, p, m - 1);
                    assert(pn.children@[m - 1] < p);
                    self.mark_text(body, "{ return null; }");
                }
            },
            NodeKind::MethodDefinition { is_render } => {
                if *is_render {
                    let mut k: usize = f + 1;
                    while k < n
                        invariant
                            self.inv(),
                            self.same_frame(old(self)),
                            self.changed == old(self).changed,
                            self.replacements.list@ == old(self).replacements.list@,
                            tree.wf(),
                            tree_fits(tree, self.source_len as int),
                            n == ancestors@.len(),
                            f + 1 <= k <= n,
                            f < n,
                            forall|j: int| 0 <= j < n ==> (#[trigger] ancestors@[j]).node() < tree.nodes@.len(),
                            first_class(tree, ancestors@, f + 1) == first_class(tree, ancestors@, k as int),
                            old(self).options.remove_jsx_and_hooks,
                            !covered(old(self).replacements.list@, tree.nodes@[i as int].span),
                            i < tree.nodes@.len(),
                            ancestors@ == path_up(tree, i as int),
                            first_root(tree, ancestors@, 0) < n,
                            f as int == component_step(tree, ancestors@),
                            p == ancestors@[f as int].spec_node(),
                            p < tree.nodes@.len(),
                            tree.nodes@[p as int].kind matches NodeKind::MethodDefinition { is_render } && is_render,
                        decreases n - k,
                    {
                        let c = ancestors[k];
                        match c {
                            Ancestor::Field(q, Slot::Body) => {
                                match &tree.nodes[q].kind {
                                    NodeKind::Class { name } => {
                                        self.replace_class(tree.nodes[q].span, name);
                                        return;
                                    },
                                    _ => {},
                                }
                            },
                            _ => {},
                        }
                        k = k + 1;
                    }
                }
            },
            _ => {},
        }
    }

    /// Replaces a class component by a function that returns `null`.
    fn replace_class(&mut self, span: Span, name: &Option<String>)
        requires
            old(self).inv(),
            span.valid(),
            span.end <= old(self).source_len,
        ensures
            final(self).inv(),
            final(self).same_frame(old(self)),
            old(self).changed ==> final(self).changed,
            keeps_cover(old(self).replacements.list@, final(self).replacements.list@),
            writes_text(
                old(self).replacements.list@,
                final(self).replacements.list@,
                span,
                null_function_text(*name),
            ),
    {
        match name {
            Some(name) => {
                let mut text = "function ".to_owned();
                text.append(name.as_str());
                text.append("() { return null; }");
                let ghost g = text;
                self.mark(span, ReplacementValue::Str(text));
                assert(final(self).replacements.list@ == added(
                    old(self).replacements.list@,
                    text_entry(span, g),
                ));
            },
            None => {
                self.mark_text(span, "function() { return null; }");
            },
        }
    }

    /// The body of a function or an arrow function, or the value of a method.
    fn is_component_root(&self, tree: &Tree, a: Ancestor) -> (r: bool)
        requires
            tree.wf(),
            a.node() < tree.nodes@.len(),
        ensures
            r == is_root_step(tree, a),
    {
        match a {
            Ancestor::Field(p, Slot::Body) => match &tree.nodes[p].kind {
                NodeKind::ArrowFunction | NodeKind::Function { .. } => true,
                _ => false,
            },
            Ancestor::Field(p, Slot::Value) => self.is_method_value(tree, a),
            _ => false,
        }
    }

    fn is_method_value(&self, tree: &Tree, a: Ancestor) -> (r: bool)
        requires
            tree.wf(),
            a.node() < tree.nodes@.len(),
        ensures
            r == is_method_step(tree, a),
    {
        match a {
            Ancestor::Field(p, Slot::Value) => match &tree.nodes[p].kind {
                NodeKind::MethodDefinition { .. } => true,
                _ => false,
            },
            _ => false,
        }
    }

    /// The rule that runs on node `i` before its children.
    pub fn enter_node(&mut self, tree: &Tree, i: usize) -> (r: EnterAction)
        requires
            old(self).inv(),
            tree.wf(),
            tree_fits(tree, old(self).source_len as int),
            i < tree.nodes@.len(),
        ensures
            final(self).inv(),
            final(self).same_frame(old(self)),
            old(self).changed ==> final(self).changed,
            keeps_cover(old(self).replacements.list@, final(self).replacements.list@),
            r is Ignore <==> tree.nodes@[i as int].kind is Jsx,
            (!(tree.nodes@[i as int].kind is Jsx) || !old(self).options.remove_jsx_and_hooks
                || covered(old(self).replacements.list@, tree.nodes@[i as int].span))
                ==> final(self).replacements.list@ == old(self).replacements.list@,
            (tree.nodes@[i as int].kind is Jsx && old(self).options.remove_jsx_and_hooks
                && !covered(old(self).replacements.list@, tree.nodes@[i as int].span))
                ==> jsx_effect(
                tree,
                i as int,
                old(self).replacements.list@,
                final(self).replacements.list@,
            ),
    {
        match tree.nodes[i].kind {
            NodeKind::Jsx => {
                self.mark_react_component_as_unnecessary(tree, i);
                EnterAction::Ignore
            },
            _ => EnterAction::Continue,
        }
    }

    /// One walk over the tree, children before parents. A node already
    /// covered by an edit is passed over.
    #[verifier::spinoff_prover]
    pub fn walk(&mut self, tree: &Tree) -> (r: Result<(), ShakeError>)
        requires
            old(self).inv(),
            tree.wf(),
            tree_fits(tree, old(self).source_len as int),
        ensures
            r matches Err(e) ==> e is NotImplemented,
            r matches Err(ShakeError::NotImplemented(k)) ==> exists|st: Seq<Seq<Replacement>>|
                walk_blocked(
                    tree,
                    old(self).options.remove_jsx_and_hooks,
                    st,
                    old(self).replacements.list@,
                    k as int,
                ) && st.last() == final(self).replacements.list@,
            final(self).inv(),
            final(self).same_frame(old(self)),
            old(self).changed ==> final(self).changed,
            keeps_cover(old(self).replacements.list@, final(self).replacements.list@),
            r is Ok ==> exists|st: Seq<Seq<Replacement>>|
                walked(
                    tree,
                    old(self).options.remove_jsx_and_hooks,
                    st,
                    old(self).replacements.list@,
                    final(self).replacements.list@,
                ),
    {
        let n = tree.nodes.len();
        let ghost remove = self.options.remove_jsx_and_hooks;
        let ghost mut st: Seq<Seq<Replacement>> = seq![self.replacements.list@];
        let mut i: usize = 0;
        while i < n
            invariant
                self.inv(),
                self.same_frame(old(self)),
                old(self).changed ==> self.changed,
                keeps_cover(old(self).replacements.list@, self.replacements.list@),
                remove == self.options.remove_jsx_and_hooks,
                tree.wf(),
                tree_fits(tree, self.source_len as int),
                n == tree.nodes@.len(),
                i <= n,
                st.len() == i + 1,
                st[0] == old(self).replacements.list@,
                st[i as int] == self.replacements.list@,
                forall|k: int| 0 <= k < i ==> node_step(tree, k, remove, #[trigger] st[k], st[k + 1]),
            decreases n - i,
        {
            let ghost before = self.replacements.list@;
            if !self.is_marked(tree.nodes[i].span) {
                match self.enter_node(tree, i) {
                    EnterAction::Continue => {
                        let r = self.exit_node(tree, i);
                        if r.is_err() {
                            assert(!(tree.nodes@[i as int].kind is Jsx));
                            assert(self.replacements.list@ == before);
                            assert(blocks(tree, i as int, st[i as int]));
                            assert(walk_blocked(tree, remove, st, old(self).replacements.list@, i as int));
                            assert(st.last() == self.replacements.list@);
                            assert(remove == old(self).options.remove_jsx_and_hooks);
                            return Err(ShakeError::NotImplemented(i));
                        }
                    },
                    EnterAction::Ignore => {},
                }
            }
            proof {
                assert(node_step(tree, i as int, remove, before, self.replacements.list@));
                st = st.push(self.replacements.list@);
                assert forall|k: int| 0 <= k < i + 1 implies node_step(tree, k, remove, #[trigger] st[k], st[k + 1]) by {
                    if k < i {
                        assert(st[k] == st.drop_last()[k]);
                    }
                }
            }
            i = i + 1;
        }
        assert(walked(tree, remove, st, old(self).replacements.list@, self.replacements.list@));
        Ok(())
    }

    /// Deletes the declaration of every binding that has no reference left
    /// once the current edits are applied.
    pub fn delete_dead_symbols(&mut self)
        requires
            old(self).inv(),
            forall|k: int|
                0 <= k < old(self).references.map@.len() ==> (#[trigger] old(
                    self,
                ).references.map@[k]).0.decl.end <= old(self).source_len,
        ensures
            final(self).inv(),
            final(self).same_frame(old(self)),
            old(self).changed ==> final(self).changed,
            keeps_cover(old(self).replacements.list@, final(self).replacements.list@),
            final(self).replacements.list@ == added_all(
                old(self).replacements.list@,
                decl_deletions(dead_symbols_under(&old(self).references, old(self).replacements.list@)),
            ),
    {
        let ghost s0 = self.replacements.list@;
        let dead = self.references.dead_after(&self.replacements);
        let n = dead.len();
        let mut k: usize = 0;
        proof {
            let f = crate::references::dead_under(self.replacements.list@);
            self.references.map@.lemma_filter_len(f);
            assert forall|j: int| 0 <= j < dead@.len() implies (#[trigger] dead@[j]).decl.end
                <= self.source_len by {
                self.references.map@.lemma_filter_pred(f, j);
                lemma_filtered_from(self.references.map@, f, j);
            }
        }
        while k < n
            invariant
                self.inv(),
                self.same_frame(old(self)),
                old(self).changed ==> self.changed,
                keeps_cover(old(self).replacements.list@, self.replacements.list@),
                n == dead@.len(),
                forall|j: int| 0 <= j < n ==> (#[trigger] dead@[j]).decl.end <= self.source_len,
                k <= n,
                self.replacements.list@ == added_all(s0, decl_deletions(dead@.subrange(0, k as int))),
            decreases n - k,
        {
            self.mark_deleted(dead[k].decl);
            proof {
                let cur = dead@.subrange(0, k + 1);
                assert(cur.drop_last() =~= dead@.subrange(0, k as int));
                assert(cur.last() == dead@[k as int]);
                if dead@[k as int].decl.valid() {
                    assert(decl_deletions(cur).drop_last() == decl_deletions(dead@.subrange(0, k as int)));
                }
            }
            k = k + 1;
        }
        assert(dead@.subrange(0, n as int) =~= dead@);
    }

    /// Runs rounds (a walk over the tree, then the deletion of the
    /// declarations of dead bindings) until a round leaves the entries as they
    /// were, or `max_passes` rounds have changed them. On success the entries
    /// are those before the last round: a fixpoint.
    pub fn shake(&mut self, tree: &Tree, max_passes: usize) -> (r: Result<(), ShakeError>)
        requires
            old(self).inv(),
            tree.wf(),
            tree_fits(tree, old(self).source_len as int),
            forall|k: int|
                0 <= k < old(self).references.map@.len() ==> (#[trigger] old(
                    self,
                ).references.map@[k]).0.decl.end <= old(self).source_len,
        ensures
            final(self).inv(),
            final(self).same_frame(old(self)),
            keeps_cover(old(self).replacements.list@, final(self).replacements.list@),
            !(r matches Err(ShakeError::SpanOutOfRange)),
            r is Ok ==> reached_fixpoint(
                tree,
                &old(self).references,
                old(self).options.remove_jsx_and_hooks,
                old(self).replacements.list@,
                final(self).replacements.list@,
            ),
            r matches Err(ShakeError::NoFixpoint) ==> exists|chain: Seq<Seq<Replacement>>|
                changing_rounds(
                    tree,
                    &old(self).references,
                    old(self).options.remove_jsx_and_hooks,
                    chain,
                    old(self).replacements.list@,
                    final(self).replacements.list@,
                ) && chain.len() == max_passes + 1,
            r matches Err(ShakeError::NotImplemented(k)) ==> exists|
                chain: Seq<Seq<Replacement>>,
                st: Seq<Seq<Replacement>>,
            |
                changing_rounds(
                    tree,
                    &old(self).references,
                    old(self).options.remove_jsx_and_hooks,
                    chain,
                    old(self).replacements.list@,
                    chain.last(),
                ) && walk_blocked(
                    tree,
                    old(self).options.remove_jsx_and_hooks,
                    st,
                    chain.last(),
                    k as int,
                ) && st.last() == final(self).replacements.list@,
    {
        let ghost remove = self.options.remove_jsx_and_hooks;
        let ghost refs = self.references;
        let ghost mut chain: Seq<Seq<Replacement>> = seq![self.replacements.list@];
        let mut pass: usize = 0;
        while pass < max_passes
            invariant
                self.inv(),
                self.same_frame(old(self)),
                remove == old(self).options.remove_jsx_and_hooks,
                refs == old(self).references,
                tree.wf(),
                tree_fits(tree, self.source_len as int),
                forall|k: int|
                    0 <= k < self.references.map@.len() ==> (#[trigger] self.references.map@[k]).0.decl.end
                        <= self.source_len,
                pass <= max_passes,
                chain.len() == pass + 1,
                keeps_cover(old(self).replacements.list@, self.replacements.list@),
                changing_rounds(tree, &refs, remove, chain, old(self).replacements.list@, self.replacements.list@),
            decreases max_passes - pass,
        {
            let ghost start = self.replacements.list@;
            let before = copy_entries(&self.replacements.list);
            self.changed = false;
            match self.walk(tree) {
                Ok(()) => {},
                Err(e) => {
                    assert(chain.last() == start);
                    return Err(e);
                },
            }
            let ghost walked_to = self.replacements.list@;
            self.delete_dead_symbols();
            proof {
                let st = choose|st: Seq<Seq<Replacement>>| walked(tree, remove, st, start, walked_to);
                assert(walked(tree, remove, st, start, walked_to));
                assert(round(tree, &refs, remove, start, self.replacements.list@));
            }
            if entries_match(&before, &self.replacements.list) {
                let ghost after = self.replacements.list@;
                self.replacements.list = before;
                assert(round(tree, &refs, remove, self.replacements.list@, after));
                assert(reached_fixpoint(
                    tree,
                    &refs,
                    remove,
                    old(self).replacements.list@,
                    self.replacements.list@,
                ));
                return Ok(());
            }
            proof {
                let c2 = chain.push(self.replacements.list@);
                assert forall|k: int| 0 <= k < c2.len() - 1 implies changes_by_round(
                    tree,
                    &refs,
                    remove,
                    #[trigger] c2[k],
                    c2[k + 1],
                ) by {
                    if k < chain.len() - 1 {
                        assert(c2[k] == chain[k] && c2[k + 1] == chain[k + 1]);
                    }
                }
                chain = c2;
            }
            pass = pass + 1;
        }
        Err(ShakeError::NoFixpoint)
    }
}

/// Whether every node span of the tree ends within `len` bytes.
pub fn tree_within(tree: &Tree, len: u32) -> (r: bool)
    ensures
        r == tree_fits(tree, len as int),
{
    let n = tree.nodes.len();
    let mut i: usize = 0;
    while i < n
        invariant
            n == tree.nodes@.len(),
            i <= n,
            forall|k: int| 0 <= k < i ==> (#[trigger] tree.nodes@[k]).span.end <= len,
        decreases n - i,
    {
        if tree.nodes[i].span.end > len {
            return false;
        }
        i = i + 1;
    }
    true
}

/// Every declaration span and every edit lies within `len` bytes.
pub open spec fn inputs_fit(references: &References, replacements: &Replacements, len: int) -> bool {
    &&& fits(replacements.list@, len)
    &&& forall|k: int|
        0 <= k < references.map@.len() ==> (#[trigger] references.map@[k]).0.decl.end <= len
}

/// Whether every declaration span and every edit lies within `len` bytes.
fn inputs_within(references: &References, replacements: &Replacements, len: u32) -> (r: bool)
    ensures
        r == inputs_fit(references, replacements, len as int),
{
    let n = references.map.len();
    let mut i: usize = 0;
    while i < n
        invariant
            n == references.map@.len(),
            i <= n,
            forall|k: int| 0 <= k < i ==> (#[trigger] references.map@[k]).0.decl.end <= len,
        decreases n - i,
    {
        if references.map[i].0.decl.end > len {
            return false;
        }
        i = i + 1;
    }
    let m = replacements.list.len();
    let mut j: usize = 0;
    while j < m
        invariant
            m == replacements.list@.len(),
            j <= m,
            forall|k: int| 0 <= k < j ==> entry_fits(#[trigger] replacements.list@[k], len as int),
        decreases m - j,
    {
        let e = &replacements.list[j];
        if e.span.end > len {
            return false;
        }
        match &e.value {
            ReplacementValue::Span(t) => {
                if t.start > t.end || t.end > len {
                    return false;
                }
            },
            _ => {},
        }
        j = j + 1;
    }
    true
}

/// `t`, except that a text that is a lone line break reads as empty.
pub open spec fn drop_lone_newline(t: Seq<char>) -> Seq<char> {
    if t == seq!['\n'] {
        Seq::empty()
    } else {
        t
    }
}

/// The text, with a lone line break read as empty.
pub fn without_lone_newline(t: String) -> (r: String)
    ensures
        r@ == drop_lone_newline(t@),
{
    let nl = "\n";
    proof {
        reveal_strlit("\n");
        assert(nl@ =~= seq!['\n']);
    }
    if crate::replacements::str_eq(t.as_str(), nl) {
        String::new()
    } else {
        t
    }
}

/// Shakes `source`: starting from the edits of `replacements`, runs rounds
/// of the rules and of dead-binding deletion until a round changes nothing,
/// then renders the edits over the source; a result that is a lone line
/// break reads as empty. Spans are byte offsets into `source`.
pub fn shake(
    tree: &Tree,
    references: References,
    replacements: Replacements,
    source: &str,
    options: ShakerOptions,
    max_passes: usize,
) -> (r: Result<String, ShakeError>)
    requires
        tree.wf(),
        references.wf(),
        replacements.wf(),
    ensures
        (r matches Err(ShakeError::SpanOutOfRange)) <==> !(encode_utf8(source@).len() <= u32::MAX
            && tree_fits(tree, encode_utf8(source@).len() as int) && inputs_fit(
            &references,
            &replacements,
            encode_utf8(source@).len() as int,
        )),
        r matches Ok(text) ==> exists|st: Seq<Replacement>|
            #![trigger render(st, encode_utf8(source@))]
            sorted_disjoint(st) && fits(st, encode_utf8(source@).len() as int) && keeps_cover(
                replacements.list@,
                st,
            ) && reached_fixpoint(
                tree,
                &references,
                options.remove_jsx_and_hooks,
                replacements.list@,
                st,
            ) && (valid_utf8(render(st, encode_utf8(source@))) ==> exists|whole: Seq<char>|
                encode_utf8(whole) == render(st, encode_utf8(source@)) && text@ == drop_lone_newline(
                    whole,
                )),
        r matches Err(ShakeError::NoFixpoint) ==> exists|chain: Seq<Seq<Replacement>>|
            #![trigger chain.len()]
            changing_rounds(
                tree,
                &references,
                options.remove_jsx_and_hooks,
                chain,
                replacements.list@,
                chain.last(),
            ) && chain.len() == max_passes + 1,
        r matches Err(ShakeError::NotImplemented(k)) ==> exists|
            chain: Seq<Seq<Replacement>>,
            st: Seq<Seq<Replacement>>,
        |
            changing_rounds(
                tree,
                &references,
                options.remove_jsx_and_hooks,
                chain,
                replacements.list@,
                chain.last(),
            ) && walk_blocked(tree, options.remove_jsx_and_hooks, st, chain.last(), k as int),
{
    let bytes = source.as_bytes();
    if bytes.len() > u32::MAX as usize {
        return Err(ShakeError::SpanOutOfRange);
    }
    let len = bytes.len() as u32;
    if !tree_within(tree, len) {
        return Err(ShakeError::SpanOutOfRange);
    }
    if !inputs_within(&references, &replacements, len) {
        return Err(ShakeError::SpanOutOfRange);
    }
    let mut shaker = Shaker::new(references, replacements, options, len);
    shaker.shake(tree, max_passes)?;
    let text = shaker.replacements.apply(source);
    Ok(without_lone_newline(text))
}

/// An element that a filter keeps is an element of the filtered sequence.
proof fn lemma_filtered_from<A>(s: Seq<A>, f: spec_fn(A) -> bool, j: int)
    requires
        0 <= j < s.filter(f).len(),
    ensures
        exists|k: int| 0 <= k < s.len() && s[k] == s.filter(f)[j],
    decreases s.len(),
{
    reveal(Seq::filter);
    if s.len() > 0 {
        let sub = s.drop_last().filter(f);
        if j < sub.len() {
            lemma_filtered_from(s.drop_last(), f, j);
            let k = choose|k: int| 0 <= k < s.drop_last().len() && s.drop_last()[k] == sub[j];
            assert(s[k] == s.filter(f)[j]);
        } else {
            assert(s[s.len() - 1] == s.filter(f)[j]);
        }
    }
}

} // verus!
