use vstd::prelude::*;
use crate::span::Span;

verus! {

/// The node kinds that the shaker has a rule for, and `Other` for the rest.
/// The children that a rule reads are listed with each kind.
#[derive(Debug)]
pub enum NodeKind {
    /// Top-level statements.
    Program,
    /// `a && b`: left, right.
    LogicalAnd,
    /// `a || b` or `a ?? b`: left, right.
    LogicalOr,
    /// `a ? b : c`: test, consequent, alternate.
    Conditional,
    /// `a = b`: target, value.
    Assignment,
    /// `[a, , b]` as a binding or an assignment target: the present elements.
    ArrayPattern,
    /// `{ a, b: c }` as an assignment target: the properties.
    ObjectTarget,
    /// `{ a, b: c }` as a binding pattern: the properties.
    ObjectPattern,
    /// `{ a }` inside an assignment target: the binding.
    ShorthandTarget,
    /// `{ k: v }` inside a pattern or an assignment target: key, value.
    PropertyPattern,
    /// `(a, b, c)`: the expressions.
    Sequence,
    /// `(a)`: the expression.
    Parenthesized,
    /// `const a = 1, b = 2`: the declarators.
    VariableDeclaration,
    /// `a = 1` inside a declaration: the binding, then the initialiser if any.
    VariableDeclarator,
    /// `a;`: the expression.
    ExpressionStatement,
    /// `debugger;`.
    Debugger,
    /// `a = 1` as a pattern with a default: the binding, the default.
    AssignmentPattern,
    /// A function: its parameters, then its rest parameter if any, then its
    /// body if any.
    Function { has_rest: bool, has_body: bool },
    /// `(..) => ..`: its parameters, then its body.
    ArrowFunction,
    /// A function body: its statements.
    FunctionBody,
    /// A class: its body. `name` is the class's own name, if it has one.
    Class { name: Option<String> },
    /// A class body: its members.
    ClassBody,
    /// A method: key, value (the function). `is_render` marks a key `render`.
    MethodDefinition { is_render: bool },
    /// `interface I { .. }`.
    TsInterface,
    /// `export { a, b }` or `export <declaration>`: the specifiers, then the
    /// declaration if there is one.
    ExportNamed { has_declaration: bool },
    /// `import { a, b } from ".."`: the specifiers.
    Import,
    /// A JSX element or fragment, or a call into the JSX runtime.
    Jsx,
    /// Any other node.
    Other,
}

/// One node: its kind, its span, its children by index, and its parent.
#[derive(Debug)]
pub struct Node {
    pub kind: NodeKind,
    pub span: Span,
    pub children: Vec<usize>,
    pub parent: Option<usize>,
}

/// A read-only tree stored in post-order: each node comes after all of its
/// descendants, so a walk by index visits children before their parents.
pub struct Tree {
    pub nodes: Vec<Node>,
}

/// Where a node stands in its parent, as a rule that looks upward needs it.
#[derive(Clone, Copy, Debug, PartialEq, Eq, Structural)]
pub enum Slot {
    /// The body of a function, an arrow function or a class.
    Body,
    /// The value of a method.
    Value,
    /// Any other place.
    Other,
}

/// One step of the path from a node up to the root: the ancestor's index and
/// the slot through which the path enters it.
#[derive(Clone, Copy, Debug, PartialEq, Eq, Structural)]
pub enum Ancestor {
    Field(usize, Slot),
    ListItem(usize, Slot, usize),
}

impl Ancestor {
    pub open spec fn spec_node(&self) -> usize {
        match *self {
            Ancestor::Field(n, _) => n,
            Ancestor::ListItem(n, _, _) => n,
        }
    }

    /// The index of the ancestor node.
    #[verifier::when_used_as_spec(spec_node)]
    pub fn node(&self) -> (r: usize)
        ensures
            r == self.spec_node(),
    {
        match self {
            Ancestor::Field(n, _) => *n,
            Ancestor::ListItem(n, _, _) => *n,
        }
    }
}

/// What a rule that runs before a node's children asks of the walk.
#[derive(Clone, Copy, Debug, PartialEq, Eq, Structural)]
pub enum EnterAction {
    /// Leave the node without running its own rule.
    Ignore,
    /// Go on as usual.
    Continue,
}

impl EnterAction {
    pub fn default() -> (r: EnterAction)
        ensures
            r is Continue,
    {
        EnterAction::Continue
    }
}

impl Tree {
    /// Children come before their parent, and a parent after its children.
    pub open spec fn wf(&self) -> bool {
        &&& self.nodes@.len() < usize::MAX
        &&& forall|i: int, k: int|
            0 <= i < self.nodes@.len() && 0 <= k < (#[trigger] self.nodes@[i]).children@.len()
                ==> #[trigger] self.nodes@[i].children@[k] < i
        &&& forall|i: int|
            0 <= i < self.nodes@.len() ==> match (#[trigger] self.nodes@[i]).parent {
                Some(p) => i < p < self.nodes@.len(),
                None => true,
            }
        &&& forall|i: int| 0 <= i < self.nodes@.len() ==> (#[trigger] self.nodes@[i]).span.valid()
    }

    /// Whether the tree is well formed.
    pub fn is_well_formed(&self) -> (r: bool)
        ensures
            r == self.wf(),
    {
        let n = self.nodes.len();
        if n == usize::MAX {
            return false;
        }
        let mut i: usize = 0;
        while i < n
            invariant
                n == self.nodes@.len(),
                n < usize::MAX,
                i <= n,
                forall|j: int, k: int|
                    0 <= j < i && 0 <= k < (#[trigger] self.nodes@[j]).children@.len()
                        ==> #[trigger] self.nodes@[j].children@[k] < j,
                forall|j: int|
                    0 <= j < i ==> match (#[trigger] self.nodes@[j]).parent {
                        Some(p) => j < p < n,
                        None => true,
                    },
                forall|j: int| 0 <= j < i ==> (#[trigger] self.nodes@[j]).span.valid(),
            decreases n - i,
        {
            let node = &self.nodes[i];
            if node.span.start > node.span.end {
                return false;
            }
            match node.parent {
                Some(p) => {
                    if p <= i || p >= n {
                        return false;
                    }
                },
                None => {},
            }
            let m = node.children.len();
            let mut k: usize = 0;
            while k < m
                invariant
                    m == node.children@.len(),
                    k <= m,
                    i < n,
                    n == self.nodes@.len(),
                    node.children@ == self.nodes@[i as int].children@,
                    forall|q: int| 0 <= q < k ==> #[trigger] node.children@[q] < i,
                decreases m - k,
            {
                if node.children[k] >= i {
                    assert(self.nodes@[i as int].children@[k as int] >= i);
                    return false;
                }
                k = k + 1;
            }
            i = i + 1;
        }
        true
    }

    pub open spec fn child_span(&self, i: int, k: int) -> Span {
        self.nodes@[self.nodes@[i].children@[k] as int].span
    }

    /// The slot through which the path from child `c` enters node `p`.
    pub fn slot_of(&self, p: usize, c: usize) -> (r: Ancestor)
        requires
            self.wf(),
            p < self.nodes@.len(),
        ensures
            r == slot_at(self, p as int, c),
    {
        let node = &self.nodes[p];
        let n = node.children.len();
        let last = n > 0 && node.children[n - 1] == c;
        match &node.kind {
            NodeKind::Function { has_body, .. } => {
                if *has_body && last {
                    return Ancestor::Field(p, Slot::Body);
                }
            },
            NodeKind::ArrowFunction => {
                if last {
                    return Ancestor::Field(p, Slot::Body);
                }
            },
            NodeKind::Class { .. } => {
                if n > 0 && node.children[0] == c {
                    return Ancestor::Field(p, Slot::Body);
                }
            },
            NodeKind::MethodDefinition { .. } => {
                if n > 1 && node.children[1] == c {
                    return Ancestor::Field(p, Slot::Value);
                }
            },
            _ => {},
        }
        let mut k: usize = 0;
        while k < n
            invariant
                n == node.children@.len(),
                k <= n,
                position_in(node.children@, c, 0) == position_in(node.children@, c, k as int),
                slot_at(self, p as int, c) == list_slot(p as int, node.children@, c),
            decreases n - k,
        {
            if node.children[k] == c {
                assert(position_in(node.children@, c, k as int) == k);
                return Ancestor::ListItem(p, Slot::Other, k);
            }
            k = k + 1;
        }
        Ancestor::Field(p, Slot::Other)
    }

    /// The path from node `i` up to the root, nearest ancestor first.
    pub fn ancestors(&self, i: usize) -> (r: Vec<Ancestor>)
        requires
            self.wf(),
            i < self.nodes@.len(),
        ensures
            r@ == path_up(self, i as int),
            forall|k: int| 0 <= k < r@.len() ==> i < (#[trigger] r@[k]).node() < self.nodes@.len(),
    {
        let mut out: Vec<Ancestor> = Vec::new();
        let mut cur = i;
        proof {
            lemma_path_up_nodes(self, i as int);
        }
        while self.nodes[cur].parent.is_some()
            invariant
                self.wf(),
                i <= cur < self.nodes@.len(),
                out@ + path_up(self, cur as int) == path_up(self, i as int),
                forall|k: int| 0 <= k < out@.len() ==> i < (#[trigger] out@[k]).node() <= cur,
            decreases self.nodes@.len() - cur,
        {
            let p = match self.nodes[cur].parent {
                Some(p) => p,
                None => cur,
            };
            let a = self.slot_of(p, cur);
            proof {
                assert(path_up(self, cur as int) == seq![a] + path_up(self, p as int));
                assert(out@.push(a) + path_up(self, p as int) =~= out@ + path_up(self, cur as int));
            }
            out.push(a);
            cur = p;
        }
        proof {
            assert(path_up(self, cur as int) =~= Seq::<Ancestor>::empty());
            assert(out@ =~= path_up(self, i as int));
            lemma_path_up_nodes(self, i as int);
        }
        out
    }
}

/// The position of the first `c` in `ch` at or after `k`, or -1.
pub open spec fn position_in(ch: Seq<usize>, c: usize, k: int) -> int
    decreases ch.len() - k,
{
    if k < 0 || k >= ch.len() {
        -1
    } else if ch[k] == c {
        k
    } else {
        position_in(ch, c, k + 1)
    }
}

/// The slot through which the path from child `c` enters node `p`: the body
/// of a function, an arrow function or a class, the value of a method, or
/// else the child's place in the list.
pub open spec fn slot_at(tree: &Tree, p: int, c: usize) -> Ancestor {
    let ch = tree.nodes@[p].children@;
    let n = ch.len();
    let last = n > 0 && ch[n - 1] == c;
    let special = match tree.nodes@[p].kind {
        NodeKind::Function { has_body, .. } => if has_body && last {
            Some(Slot::Body)
        } else {
            None
        },
        NodeKind::ArrowFunction => if last {
            Some(Slot::Body)
        } else {
            None
        },
        NodeKind::Class { .. } => if n > 0 && ch[0] == c {
            Some(Slot::Body)
        } else {
            None
        },
        NodeKind::MethodDefinition { .. } => if n > 1 && ch[1] == c {
            Some(Slot::Value)
        } else {
            None
        },
        _ => None,
    };
    match special {
        Some(slot) => Ancestor::Field(p as usize, slot),
        None => list_slot(p, ch, c),
    }
}

/// The child's place in the list of node `p`, or the node as a whole when
/// `c` is not among its children.
pub open spec fn list_slot(p: int, ch: Seq<usize>, c: usize) -> Ancestor {
    if position_in(ch, c, 0) >= 0 {
        Ancestor::ListItem(p as usize, Slot::Other, position_in(ch, c, 0) as usize)
    } else {
        Ancestor::Field(p as usize, Slot::Other)
    }
}

/// The steps from node `i` up to the root, nearest first.
pub open spec fn path_up(tree: &Tree, i: int) -> Seq<Ancestor>
    decreases tree.nodes@.len() - i,
{
    if i < 0 || i >= tree.nodes@.len() {
        Seq::empty()
    } else {
        match tree.nodes@[i].parent {
            Some(p) => if i < p < tree.nodes@.len() {
                seq![slot_at(tree, p as int, i as usize)] + path_up(tree, p as int)
            } else {
                Seq::empty()
            },
            None => Seq::empty(),
        }
    }
}

proof fn lemma_path_up_nodes(tree: &Tree, i: int)
    requires
        tree.wf(),
        0 <= i < tree.nodes@.len(),
    ensures
        forall|k: int|
            0 <= k < path_up(tree, i).len() ==> i < (#[trigger] path_up(tree, i)[k]).spec_node()
                < tree.nodes@.len(),
    decreases tree.nodes@.len() - i,
{
    match tree.nodes@[i].parent {
        Some(p) => {
            lemma_path_up_nodes(tree, p as int);
            let r = path_up(tree, i);
            assert forall|k: int| 0 <= k < r.len() implies i < (#[trigger] r[k]).spec_node()
                < tree.nodes@.len() by {
                if k > 0 {
                    assert(r[k] == path_up(tree, p as int)[k - 1]);
                }
            }
        },
        None => {},
    }
}

} // verus!
