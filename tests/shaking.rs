use wyw_shaker::references::{Reference, ReferenceFlags, References, Symbol};
use wyw_shaker::replacements::Replacements;
use wyw_shaker::shaker::{shake, ShakeError, ShakerOptions};
use wyw_shaker::span::Span;
use wyw_shaker::tree::{Node, NodeKind, Tree};

/// Splits marker lines (only spaces and `^`) out of the text; each run of
/// `^` marks the bytes above it for deletion.
fn extract_spans_for_deletion(source_text: &str) -> (String, Vec<Span>) {
    let mut lines: Vec<&str> = vec![];
    let mut spans = vec![];
    let mut pos = 0usize;
    let mut last_line_len = 0usize;
    for line in source_text.split('\n') {
        let is_marker = !line.is_empty() && line.chars().all(|c| c == ' ' || c == '^')
            && line.contains('^');
        if is_marker {
            let bytes = line.as_bytes();
            let mut k = 0;
            while k < bytes.len() {
                if bytes[k] == b'^' {
                    let start = k;
                    while k < bytes.len() && bytes[k] == b'^' {
                        k += 1;
                    }
                    let base = pos - last_line_len;
                    spans.push(Span::new((base + start) as u32, (base + k) as u32));
                } else {
                    k += 1;
                }
            }
        } else {
            lines.push(line);
            last_line_len = line.len() + 1;
            pos += last_line_len;
        }
    }
    (lines.join("\n"), spans)
}

struct Builder {
    src: String,
    nodes: Vec<Node>,
    symbols: Vec<(Symbol, Vec<Span>)>,
}

impl Builder {
    fn new(src: &str) -> Builder {
        Builder { src: src.to_string(), nodes: vec![], symbols: vec![] }
    }

    /// The span of the `nth` occurrence of `needle`.
    fn at(&self, needle: &str, nth: usize) -> Span {
        let mut from = 0;
        let mut found = 0;
        loop {
            let k = self.src[from..].find(needle).expect("needle") + from;
            if found == nth {
                return Span::new(k as u32, (k + needle.len()) as u32);
            }
            found += 1;
            from = k + 1;
        }
    }

    /// The span of `inner` inside the first occurrence of `context`.
    fn within(&self, context: &str, inner: &str) -> Span {
        let c = self.at(context, 0);
        let k = self.src[c.start as usize..].find(inner).unwrap() + c.start as usize;
        Span::new(k as u32, (k + inner.len()) as u32)
    }

    fn leaf_at(&mut self, span: Span) -> usize {
        self.node(NodeKind::Other, span, vec![])
    }

    fn node(&mut self, kind: NodeKind, span: Span, children: Vec<usize>) -> usize {
        self.nodes.push(Node { kind, span, children, parent: None });
        self.nodes.len() - 1
    }

    fn leaf(&mut self, needle: &str, nth: usize) -> usize {
        let span = self.at(needle, nth);
        self.node(NodeKind::Other, span, vec![])
    }

    fn symbol(&mut self, decl: Span, refs: Vec<Span>) {
        let id = self.symbols.len() as u32;
        self.symbols.push((Symbol { id, decl }, refs));
    }

    /// `const <name> = <init>;` with the given initialiser node.
    fn const_decl(&mut self, text: &str, nth: usize, name: &str, init: usize) -> (usize, Span) {
        let stmt = self.at(text, nth);
        let start = stmt.start as usize + "const ".len();
        let id = self.node(
            NodeKind::Other,
            Span::new(start as u32, (start + name.len()) as u32),
            vec![],
        );
        let end_decl = self.nodes[init].span.end;
        let declarator =
            self.node(NodeKind::VariableDeclarator, Span::new(start as u32, end_decl), vec![id, init]);
        let d = self.node(NodeKind::VariableDeclaration, stmt, vec![declarator]);
        (d, self.nodes[declarator].span)
    }

    fn program(&mut self, statements: Vec<usize>) {
        let len = self.src.len() as u32;
        self.node(NodeKind::Program, Span::new(0, len), statements);
    }

    fn run(self, seeds: Vec<Span>, options: ShakerOptions) -> Result<String, ShakeError> {
        self.run_with(seeds, options, 100)
    }

    fn run_with(
        self,
        seeds: Vec<Span>,
        options: ShakerOptions,
        passes: usize,
    ) -> Result<String, ShakeError> {
        let mut nodes = self.nodes;
        let mut parents = vec![None; nodes.len()];
        for (i, n) in nodes.iter().enumerate() {
            for &c in &n.children {
                parents[c] = Some(i);
            }
        }
        for (i, n) in nodes.iter_mut().enumerate() {
            n.parent = parents[i];
        }
        let tree = Tree { nodes };
        let mut references = References::default();
        for (symbol, refs) in self.symbols {
            for span in refs {
                references.add(
                    symbol,
                    Reference { flags: ReferenceFlags { read: true, write: false }, span },
                );
            }
        }
        shake(&tree, references, Replacements::from_spans(seeds), &self.src, options, passes)
    }
}

/// The shaken text.
fn finish(out: Result<String, ShakeError>) -> String {
    out.unwrap()
}

fn remove_jsx() -> ShakerOptions {
    ShakerOptions { remove_jsx_and_hooks: true }
}

/// `export { x, y, .. };` over the given names.
fn export_list(b: &mut Builder, stmt: usize, names: &[&str]) -> usize {
    let stmt_span = b.at("export {", stmt);
    let end = b.src[stmt_span.start as usize..].find(';').unwrap() + stmt_span.start as usize + 1;
    let mut specs = vec![];
    for name in names {
        let inside = &b.src[stmt_span.start as usize..end];
        let k = inside.find(&format!(" {}", name)).unwrap() + 1 + stmt_span.start as usize;
        specs.push(b.node(NodeKind::Other, Span::new(k as u32, (k + name.len()) as u32), vec![]));
    }
    b.node(
        NodeKind::ExportNamed { has_declaration: false },
        Span::new(stmt_span.start, end as u32),
        specs,
    )
}

fn check_named_exports() {
    let cases: Vec<(&str, &[&str], &str)> = vec![
        (
            "export { to_remove, to_keep };\n         ^^^^^^^^^\n",
            &["to_remove", "to_keep"],
            "export { to_keep };\n",
        ),
        ("export { a, b, c };\n            ^\n", &["a", "b", "c"], "export { a, c };\n"),
        ("export { a, b, c };\n         ^     ^\n", &["a", "b", "c"], "export { b };\n"),
        ("export { to_remove };\n         ^^^^^^^^^\n", &["to_remove"], ""),
        (
            "export { to_remove_1, to_remove_2 };\n         ^^^^^^^^^^^  ^^^^^^^^^^^\n",
            &["to_remove_1", "to_remove_2"],
            "",
        ),
    ];
    for (input, names, expected) in cases {
        let (src, seeds) = extract_spans_for_deletion(input);
        let mut b = Builder::new(&src);
        let e = export_list(&mut b, 0, names);
        b.program(vec![e]);
        assert_eq!(finish(b.run(seeds, remove_jsx())), expected);
    }
}

fn check_unused_declaration() {
    let input = "const a = 42;\nconst b = 24;\nexport { a, b };\n            ^\n";
    let (src, seeds) = extract_spans_for_deletion(input);
    let mut b = Builder::new(&src);
    let v42 = b.leaf("42", 0);
    let (d1, decl_a) = b.const_decl("const a = 42;", 0, "a", v42);
    let v24 = b.leaf("24", 0);
    let (d2, decl_b) = b.const_decl("const b = 24;", 0, "b", v24);
    let e = export_list(&mut b, 0, &["a", "b"]);
    b.program(vec![d1, d2, e]);
    let ra = b.within("export {", "a");
    let rb = b.within("export {", "b");
    b.symbol(decl_a, vec![ra]);
    b.symbol(decl_b, vec![rb]);
    assert_eq!(b.run(seeds, remove_jsx()).unwrap(), "const a = 42;\nexport { a };\n");
}

fn check_moved_reference() {
    let input = "const a = 42;\nconst b = 24;\nconst c = localStorage.isDebug ? a : b;\n          ^^^^^^^^^^^^^^^^^^^^\nexport { c };\n";
    let (src, seeds) = extract_spans_for_deletion(input);
    let mut b = Builder::new(&src);
    let v42 = b.leaf("42", 0);
    let (d1, decl_a) = b.const_decl("const a = 42;", 0, "a", v42);
    let v24 = b.leaf("24", 0);
    let (d2, decl_b) = b.const_decl("const b = 24;", 0, "b", v24);
    let t = b.leaf("localStorage.isDebug", 0);
    let sa = b.within("? a :", "a");
    let sb = b.within(": b;", "b");
    let ca = b.leaf_at(sa);
    let cb = b.leaf_at(sb);
    let cond_span = b.at("localStorage.isDebug ? a : b", 0);
    let cond = b.node(NodeKind::Conditional, cond_span, vec![t, ca, cb]);
    let (d3, decl_c) = b.const_decl("const c = localStorage.isDebug ? a : b;", 0, "c", cond);
    let e = export_list(&mut b, 0, &["c"]);
    b.program(vec![d1, d2, d3, e]);
    let ra = sa;
    let rb = sb;
    let rc = b.within("export {", "c");
    b.symbol(decl_a, vec![ra]);
    b.symbol(decl_b, vec![rb]);
    b.symbol(decl_c, vec![rc]);
    assert_eq!(
        b.run(seeds, remove_jsx()).unwrap(),
        "const b = 24;\nconst c = b;\nexport { c };\n"
    );
}

/// `import { x, y } from "module";` over the given names.
fn import_list(b: &mut Builder, names: &[&str]) -> usize {
    let stmt = b.at("import {", 0);
    let end = b.src.find(';').unwrap() + 1;
    let mut specs = vec![];
    for name in names {
        let k = b.src.find(&format!(" {}", name)).unwrap() + 1;
        specs.push(b.node(NodeKind::Other, Span::new(k as u32, (k + name.len()) as u32), vec![]));
    }
    b.node(NodeKind::Import, Span::new(stmt.start, end as u32), specs)
}

#[test]
fn test_imports() {
    let cases: Vec<(&str, &[&str], &str)> = vec![
        (
            "import { to_remove, to_keep } from \"module\";\n         ^^^^^^^^^\n",
            &["to_remove", "to_keep"],
            "import { to_keep } from \"module\";\n",
        ),
        (
            "import { a, b, c } from \"module\";\n            ^\n",
            &["a", "b", "c"],
            "import { a, c } from \"module\";\n",
        ),
        (
            "import { a, b, c } from \"module\";\n         ^     ^\n",
            &["a", "b", "c"],
            "import { b } from \"module\";\n",
        ),
        ("import { to_remove } from \"module\";\n         ^^^^^^^^^\n", &["to_remove"], ""),
        (
            "import { to_remove_1, to_remove_2 } from \"module\";\n         ^^^^^^^^^^^  ^^^^^^^^^^^\n",
            &["to_remove_1", "to_remove_2"],
            "",
        ),
    ];
    for (input, names, expected) in cases {
        let (src, seeds) = extract_spans_for_deletion(input);
        let mut b = Builder::new(&src);
        let i = import_list(&mut b, names);
        b.program(vec![i]);
        assert_eq!(finish(b.run(seeds, remove_jsx())), expected);
    }
}

/// `const a = 42, b = 24;` with its two declarators.
fn two_declarators(input: &str) -> String {
    let (src, seeds) = extract_spans_for_deletion(input);
    let mut b = Builder::new(&src);
    let ia = b.leaf("a", 0);
    let v42 = b.leaf("42", 0);
    let da_span = b.at("a = 42", 0);
    let da = b.node(NodeKind::VariableDeclarator, da_span, vec![ia, v42]);
    let ib = b.leaf("b", 0);
    let v24 = b.leaf("24", 0);
    let db_span = b.at("b = 24", 0);
    let db = b.node(NodeKind::VariableDeclarator, db_span, vec![ib, v24]);
    let stmt = b.at("const a = 42, b = 24;", 0);
    let d = b.node(NodeKind::VariableDeclaration, stmt, vec![da, db]);
    b.program(vec![d]);
    finish(b.run(seeds, remove_jsx()))
}

/// `const [a, b] = [42, 24];` or, without `const`, the same assignment.
fn array_destructuring(input: &str, declaration: bool) -> String {
    let (src, seeds) = extract_spans_for_deletion(input);
    let mut b = Builder::new(&src);
    let ea = b.within("[a, b]", "a");
    let eb = b.within("[a, b]", "b");
    let la = b.leaf_at(ea);
    let lb = b.leaf_at(eb);
    let pat_span = b.at("[a, b]", 0);
    let pat = b.node(NodeKind::ArrayPattern, pat_span, vec![la, lb]);
    let v42 = b.leaf("42", 0);
    let v24 = b.leaf("24", 0);
    let arr_span = b.at("[42, 24]", 0);
    let arr = b.node(NodeKind::Other, arr_span, vec![v42, v24]);
    let stmt;
    if declaration {
        let decl_span = b.at("[a, b] = [42, 24]", 0);
        let declarator = b.node(NodeKind::VariableDeclarator, decl_span, vec![pat, arr]);
        let s = b.at("const [a, b] = [42, 24];", 0);
        stmt = b.node(NodeKind::VariableDeclaration, s, vec![declarator]);
    } else {
        let asg_span = b.at("[a, b] = [42, 24]", 0);
        let asg = b.node(NodeKind::Assignment, asg_span, vec![pat, arr]);
        let s = b.at("[a, b] = [42, 24];", 0);
        stmt = b.node(NodeKind::ExpressionStatement, s, vec![asg]);
    }
    b.program(vec![stmt]);
    finish(b.run(seeds, remove_jsx()))
}

/// `{ a = 1, b }` over a multi-line object, as a declaration or an
/// assignment.
fn object_with_default(input: &str, declaration: bool) -> String {
    let (src, seeds) = extract_spans_for_deletion(input);
    let mut b = Builder::new(&src);
    let pat_span = b.at("{ a = 1, b }", 0);
    let key_a = b.within("{ a = 1", "a");
    let first;
    if declaration {
        let key = b.leaf_at(key_a);
        let left = b.leaf_at(key_a);
        let one = b.leaf("1", 0);
        let ap_span = b.at("a = 1", 0);
        let ap = b.node(NodeKind::AssignmentPattern, ap_span, vec![left, one]);
        first = b.node(NodeKind::PropertyPattern, ap_span, vec![key, ap]);
    } else {
        let binding = b.leaf_at(key_a);
        let one = b.leaf("1", 0);
        let p_span = b.at("a = 1", 0);
        first = b.node(NodeKind::ShorthandTarget, p_span, vec![binding, one]);
    }
    let kb = b.within("{ a = 1, b }", "b");
    let second;
    if declaration {
        let key = b.leaf_at(kb);
        let value = b.leaf_at(kb);
        second = b.node(NodeKind::PropertyPattern, kb, vec![key, value]);
    } else {
        let binding = b.leaf_at(kb);
        second = b.node(NodeKind::ShorthandTarget, kb, vec![binding]);
    }
    let kind = if declaration { NodeKind::ObjectPattern } else { NodeKind::ObjectTarget };
    let pat = b.node(kind, pat_span, vec![first, second]);
    let obj_start = b.at("{\n", 0).start;
    let obj_end = b.at("}", 1).end;
    let obj = b.node(NodeKind::Other, Span::new(obj_start, obj_end), vec![]);
    let stmt;
    if declaration {
        let declarator = b.node(NodeKind::VariableDeclarator, Span::new(pat_span.start, obj_end), vec![pat, obj]);
        let end = b.src.rfind(';').unwrap() as u32 + 1;
        stmt = b.node(NodeKind::VariableDeclaration, Span::new(0, end), vec![declarator]);
    } else {
        let asg = b.node(NodeKind::Assignment, Span::new(pat_span.start, obj_end), vec![pat, obj]);
        let paren = b.node(NodeKind::Parenthesized, Span::new(0, obj_end + 1), vec![asg]);
        stmt = b.node(NodeKind::ExpressionStatement, Span::new(0, obj_end + 2), vec![paren]);
    }
    b.program(vec![stmt]);
    finish(b.run(seeds, remove_jsx()))
}

/// `{ a: b } = { a: 42 }`, as a declaration or a parenthesised assignment.
fn renamed_property(input: &str, declaration: bool) -> String {
    let (src, seeds) = extract_spans_for_deletion(input);
    let mut b = Builder::new(&src);
    let key = b.leaf("a", 0);
    let value = b.leaf("b", 0);
    let prop_span = b.at("a: b", 0);
    let prop = b.node(NodeKind::PropertyPattern, prop_span, vec![key, value]);
    let pat_span = b.at("{ a: b }", 0);
    let kind = if declaration { NodeKind::ObjectPattern } else { NodeKind::ObjectTarget };
    let pat = b.node(kind, pat_span, vec![prop]);
    let obj_span = b.at("{ a: 42 }", 0);
    let obj = b.node(NodeKind::Other, obj_span, vec![]);
    let whole = Span::new(pat_span.start, obj_span.end);
    let stmt;
    if declaration {
        let declarator = b.node(NodeKind::VariableDeclarator, whole, vec![pat, obj]);
        stmt = b.node(NodeKind::VariableDeclaration, Span::new(0, obj_span.end), vec![declarator]);
    } else {
        let asg = b.node(NodeKind::Assignment, whole, vec![pat, obj]);
        let paren = b.node(NodeKind::Parenthesized, Span::new(0, obj_span.end + 1), vec![asg]);
        stmt = b.node(NodeKind::ExpressionStatement, Span::new(0, obj_span.end + 1), vec![paren]);
    }
    b.program(vec![stmt]);
    finish(b.run(seeds, remove_jsx()))
}

fn check_variable_declaration() {
    let (src, seeds) = extract_spans_for_deletion("const a = 42;\n      ^\n");
    let mut b = Builder::new(&src);
    let v42 = b.leaf("42", 0);
    let (d, _) = b.const_decl("const a = 42;", 0, "a", v42);
    b.program(vec![d]);
    assert_eq!(finish(b.run(seeds, remove_jsx())), "");

    assert_eq!(two_declarators("const a = 42, b = 24;\n      ^\n"), "const b = 24;\n");
    assert_eq!(two_declarators("const a = 42, b = 24;\n              ^\n"), "const a = 42;\n");
    assert_eq!(two_declarators("const a = 42, b = 24;\n      ^       ^\n"), "");

    assert_eq!(renamed_property("const { a: b } = { a: 42 }\n           ^\n", true), "");

    assert_eq!(
        object_with_default(
            "const { a = 1, b } = {\n        ^\n  a: 42,\n  b: 24\n};\n",
            true
        ),
        "const { b } = {\n  a: 42,\n  b: 24\n};\n"
    );

    assert_eq!(
        array_destructuring("const [a, b] = [42, 24];\n       ^\n", true),
        "const [, b] = [42, 24];\n"
    );
    assert_eq!(array_destructuring("const [a, b] = [42, 24];\n       ^  ^\n", true), "");
}

/// `a = 42, b = 24;` as a sequence of two assignments.
fn two_assignments(input: &str) -> String {
    let (src, seeds) = extract_spans_for_deletion(input);
    let mut b = Builder::new(&src);
    let ta = b.leaf("a", 0);
    let v42 = b.leaf("42", 0);
    let a1_span = b.at("a = 42", 0);
    let a1 = b.node(NodeKind::Assignment, a1_span, vec![ta, v42]);
    let tb = b.leaf("b", 0);
    let v24 = b.leaf("24", 0);
    let a2_span = b.at("b = 24", 0);
    let a2 = b.node(NodeKind::Assignment, a2_span, vec![tb, v24]);
    let seq_span = b.at("a = 42, b = 24", 0);
    let seq = b.node(NodeKind::Sequence, seq_span, vec![a1, a2]);
    let stmt_span = b.at("a = 42, b = 24;", 0);
    let stmt = b.node(NodeKind::ExpressionStatement, stmt_span, vec![seq]);
    b.program(vec![stmt]);
    finish(b.run(seeds, remove_jsx()))
}

fn check_assigment() {
    let (src, seeds) = extract_spans_for_deletion("a = 42;\n^\n");
    let mut b = Builder::new(&src);
    let ta = b.leaf("a", 0);
    let v42 = b.leaf("42", 0);
    let asg_span = b.at("a = 42", 0);
    let asg = b.node(NodeKind::Assignment, asg_span, vec![ta, v42]);
    let stmt_span = b.at("a = 42;", 0);
    let stmt = b.node(NodeKind::ExpressionStatement, stmt_span, vec![asg]);
    b.program(vec![stmt]);
    assert_eq!(finish(b.run(seeds, remove_jsx())), "");

    assert_eq!(two_assignments("a = 42, b = 24;\n^\n"), "b = 24;\n");
    assert_eq!(two_assignments("a = 42, b = 24;\n        ^\n"), "a = 42, undefined;\n");
    assert_eq!(two_assignments("a = 42, b = 24;\n^       ^\n"), "undefined;\n");

    assert_eq!(renamed_property("({ a: b } = { a: 42 })\n      ^\n", false), "");

    assert_eq!(
        object_with_default("({ a = 1, b } = {\n   ^\n  a: 42,\n  b: 24\n});\n", false),
        "({ b } = {\n  a: 42,\n  b: 24\n});\n"
    );

    assert_eq!(array_destructuring("[a, b] = [42, 24];\n ^\n", false), "[, b] = [42, 24];\n");
    assert_eq!(array_destructuring("[a, b] = [42, 24];\n ^  ^\n", false), "");
}

/// `const a = (x, y, z, w);` over the listed elements.
fn sequence(input: &str, elements: &[&str]) -> String {
    let (src, seeds) = extract_spans_for_deletion(input);
    let mut b = Builder::new(&src);
    let inner_start = b.at("(", 0).start + 1;
    let inner_end = b.at(")", 0).start;
    let mut items = vec![];
    let mut from = inner_start as usize;
    for e in elements {
        let k = b.src[from..].find(e).unwrap() + from;
        items.push(b.node(NodeKind::Other, Span::new(k as u32, (k + e.len()) as u32), vec![]));
        from = k + e.len();
    }
    let seq = b.node(NodeKind::Sequence, Span::new(inner_start, inner_end), items);
    let paren = b.node(NodeKind::Parenthesized, Span::new(inner_start - 1, inner_end + 1), vec![seq]);
    let stmt_text = b.src.lines().next().unwrap().to_string();
    let (d, _) = b.const_decl(&stmt_text, 0, "a", paren);
    b.program(vec![d]);
    finish(b.run(seeds, remove_jsx()))
}

fn check_sequence() {
    assert_eq!(
        sequence("const a = (1, 2, 3, b);\n                    ^\n", &["1", "2", "3", "b"]),
        "const a = (1, 2, 3, undefined);\n"
    );
    assert_eq!(
        sequence("const a = (1, 2, b, 3);\n                 ^\n", &["1", "2", "b", "3"]),
        "const a = (1, 2, 3);\n"
    );
    assert_eq!(
        sequence("const a = (b, c, d);\n           ^  ^  ^\n", &["b", "c", "d"]),
        "const a = (undefined);\n"
    );
}

/// `const a = to_remove ? 42 : 24;`.
fn conditional(input: &str) -> String {
    let (src, seeds) = extract_spans_for_deletion(input);
    let mut b = Builder::new(&src);
    let t = b.leaf("to_remove", 0);
    let c = b.leaf("42", 0);
    let e = b.leaf("24", 0);
    let cond_span = b.at("to_remove ? 42 : 24", 0);
    let cond = b.node(NodeKind::Conditional, cond_span, vec![t, c, e]);
    let (d, _) = b.const_decl("const a = to_remove ? 42 : 24;", 0, "a", cond);
    b.program(vec![d]);
    finish(b.run(seeds, remove_jsx()))
}

fn check_conditional_expression() {
    assert_eq!(conditional("const a = to_remove ? 42 : 24;\n          ^^^^^^^^^\n"), "const a = 24;\n");
    assert_eq!(
        conditional("const a = to_remove ? 42 : 24;\n                      ^^\n"),
        "const a = to_remove ? undefined : 24;\n"
    );
    assert_eq!(
        conditional("const a = to_remove ? 42 : 24;\n                           ^^\n"),
        "const a = to_remove ? 42 : undefined;\n"
    );
}

/// Three declarations `const aN = b <op> c;`.
fn logical(input: &str, op: &str) -> String {
    let (src, seeds) = extract_spans_for_deletion(input);
    let mut b = Builder::new(&src);
    let kind_of = |op: &str| if op == "&&" { NodeKind::LogicalAnd } else { NodeKind::LogicalOr };
    let mut stmts = vec![];
    for n in 0..3 {
        let text = format!("const a{} = b {} c;", n + 1, op);
        let stmt = b.at(&text, 0);
        let base = stmt.start as usize + format!("const a{} = ", n + 1).len();
        let l = b.leaf_at(Span::new(base as u32, base as u32 + 1));
        let r_start = base + 2 + op.len() + 1;
        let r = b.leaf_at(Span::new(r_start as u32, r_start as u32 + 1));
        let e = b.node(kind_of(op), Span::new(base as u32, r_start as u32 + 1), vec![l, r]);
        let (d, _) = b.const_decl(&text, 0, &format!("a{}", n + 1), e);
        stmts.push(d);
    }
    b.program(stmts);
    finish(b.run(seeds, remove_jsx()))
}

fn check_logical_expression() {
    let marks = "const a1 = b OP c;\n           ^\nconst a2 = b OP c;\n                ^\nconst a3 = b OP c;\n           ^    ^\n";
    assert_eq!(
        logical(&marks.replace("OP", "&&"), "&&"),
        "const a1 = undefined;\nconst a2 = undefined;\nconst a3 = undefined;\n"
    );
    assert_eq!(
        logical(&marks.replace("OP", "||"), "||"),
        "const a1 = c;\nconst a2 = b;\nconst a3 = undefined;\n"
    );
    assert_eq!(
        logical(&marks.replace("OP", "??"), "??"),
        "const a1 = c;\nconst a2 = b;\nconst a3 = undefined;\n"
    );
}

/// A getter `get <name>() { return; }` inside a class body.
fn getter(b: &mut Builder, name: &str) -> usize {
    let head = format!("get {}()", name);
    let start = b.at(&head, 0).start as usize;
    let key_start = start + 4;
    let key = b.leaf_at(Span::new(key_start as u32, (key_start + name.len()) as u32));
    let ret_from = b.src[start..].find("return;").unwrap() + start;
    let ret = b.leaf_at(Span::new(ret_from as u32, ret_from as u32 + 7));
    let body_start = b.src[start..].find('{').unwrap() + start;
    let body_end = b.src[ret_from..].find('}').unwrap() + ret_from + 1;
    let body = b.node(NodeKind::FunctionBody, Span::new(body_start as u32, body_end as u32), vec![ret]);
    let value_start = key_start + name.len();
    let f = b.node(
        NodeKind::Function { has_rest: false, has_body: true },
        Span::new(value_start as u32, body_end as u32),
        vec![body],
    );
    b.node(
        NodeKind::MethodDefinition { is_render: false },
        Span::new(start as u32, body_end as u32),
        vec![key, f],
    )
}

fn class_expression(input: &str, getters: &[&str]) -> String {
    let (src, seeds) = extract_spans_for_deletion(input);
    let mut b = Builder::new(&src);
    let mut members = vec![];
    for g in getters {
        members.push(getter(&mut b, g));
    }
    let cls_start = b.at("class", 0).start;
    let body_start = b.at("{", 0).start;
    let cls_end = b.src.rfind('}').unwrap() as u32 + 1;
    let body = b.node(NodeKind::ClassBody, Span::new(body_start, cls_end), members);
    let cls = b.node(NodeKind::Class { name: None }, Span::new(cls_start, cls_end), vec![body]);
    let stmt_end = b.src.rfind(';').unwrap() as u32 + 1;
    let id = b.leaf("a", 0);
    let declarator = b.node(NodeKind::VariableDeclarator, Span::new(6, cls_end), vec![id, cls]);
    let d = b.node(NodeKind::VariableDeclaration, Span::new(0, stmt_end), vec![declarator]);
    b.program(vec![d]);
    finish(b.run(seeds, remove_jsx()))
}

fn check_class() {
    assert_eq!(
        class_expression(
            "const a = class { get method() { return; } };\n                      ^^^^^^\n",
            &["method"]
        ),
        "const a = class {};\n"
    );
    assert_eq!(
        class_expression(
            "const a = class {\n  get method_1() {\n      ^^^^^^^^\n    return;\n  }\n  get method_2() {\n    return;\n  }\n};\n",
            &["method_1", "method_2"]
        ),
        "const a = class {\n  get method_2() {\n    return;\n  }\n};\n"
    );
}

fn function_expression(input: &str, rest: bool) -> String {
    let (src, seeds) = extract_spans_for_deletion(input);
    let mut b = Builder::new(&src);
    let mut children = vec![b.leaf("param", 0)];
    if rest {
        children.push(b.leaf("...rest", 0));
    }
    let ret = b.leaf("return;", 0);
    let body_start = b.at("{", 0).start;
    let body_end = b.at("}", 0).end;
    children.push(b.node(NodeKind::FunctionBody, Span::new(body_start, body_end), vec![ret]));
    let f_start = b.at("function", 0).start;
    let f = b.node(
        NodeKind::Function { has_rest: rest, has_body: true },
        Span::new(f_start, body_end),
        children,
    );
    let end = b.src.rfind(';').unwrap();
    let stmt_text = b.src[..end + 1].to_string();
    let (d, _) = b.const_decl(&stmt_text, 0, "a", f);
    b.program(vec![d]);
    finish(b.run(seeds, remove_jsx()))
}

fn check_function() {
    assert_eq!(
        function_expression("const a = function to_remove(param) {\n  return;\n  ^^^^^^^\n};\n", false),
        "const a = function to_remove() {};\n"
    );
    assert_eq!(
        function_expression(
            "const a = function to_remove(param, ...rest) {\n  return;\n  ^^^^^^^\n};\n",
            true
        ),
        "const a = function to_remove() {};\n"
    );
}

fn jsx_declarations(input: &str, options: ShakerOptions) -> String {
    let (src, seeds) = extract_spans_for_deletion(input);
    let mut b = Builder::new(&src);
    let mut stmts = vec![];
    let mut decl_str = None;
    if b.src.starts_with("const str") {
        let lit = b.leaf("\"to remove\"", 0);
        let (d, decl) = b.const_decl("const str = \"to remove\";", 0, "str", lit);
        stmts.push(d);
        decl_str = Some(decl);
    }
    let jsx_start = b.at("<", 0).start;
    let jsx_end = b.src.rfind('>').unwrap() as u32 + 1;
    let jsx = b.node(NodeKind::Jsx, Span::new(jsx_start, jsx_end), vec![]);
    let line_start = b.at("const a", 0).start as usize;
    let text = b.src[line_start..].lines().next().unwrap().to_string();
    let (d, _) = b.const_decl(&text, 0, "a", jsx);
    stmts.push(d);
    b.program(stmts);
    if let Some(decl) = decl_str {
        let r = b.within("{str}", "str");
        b.symbol(decl, vec![r]);
    }
    finish(b.run(seeds, options))
}

#[test]
fn test_remove_jsx() {
    assert_eq!(
        jsx_declarations(
            "const str = \"to remove\";\nconst a = <div>{str}</div>;\n",
            remove_jsx()
        ),
        "const a = null;\n"
    );
    assert_eq!(jsx_declarations("const a = <>to remove</>;\n", remove_jsx()), "const a = null;\n");
}

#[test]
fn test_keep_jsx() {
    let keep = ShakerOptions { remove_jsx_and_hooks: false };
    assert_eq!(
        jsx_declarations("const str = \"to remove\";\nconst a = <div>{str}</div>;\n", keep),
        "const str = \"to remove\";\nconst a = <div>{str}</div>;\n"
    );
    assert_eq!(jsx_declarations("const a = <>to remove</>;\n", keep), "const a = <>to remove</>;\n");
}

/// A function `function(props) { return <h1>..</h1>; }` starting at `at`;
/// returns the function node and the span of its parameter.
fn function_component(b: &mut Builder, at: usize) -> (usize, Span) {
    let param_start = b.src[at..].find("props").unwrap() + at;
    let param_span = Span::new(param_start as u32, param_start as u32 + 5);
    let param = b.leaf_at(param_span);
    let ret_start = b.src[at..].find("return").unwrap() + at;
    let jsx_start = b.src[ret_start..].find('<').unwrap() + ret_start;
    let jsx_end = b.src[ret_start..].find("</h1>").unwrap() + ret_start + 5;
    let jsx = b.node(NodeKind::Jsx, Span::new(jsx_start as u32, jsx_end as u32), vec![]);
    let ret = b.node(NodeKind::Other, Span::new(ret_start as u32, jsx_end as u32 + 1), vec![jsx]);
    let body_start = b.src[at..].find('{').unwrap() + at;
    let body_end = b.src[jsx_end..].find('}').unwrap() + jsx_end + 1;
    let body = b.node(NodeKind::FunctionBody, Span::new(body_start as u32, body_end as u32), vec![ret]);
    let f = b.node(
        NodeKind::Function { has_rest: false, has_body: true },
        Span::new(at as u32, body_end as u32),
        vec![param, body],
    );
    (f, param_span)
}

#[test]
fn test_replace_fn_component() {
    let src = "const Title1 = function(props) {\n  return <h1>{props.children}</h1>;\n};\n\nconst Title2 = (props) => <h1>{props.children}</h1>;\n\nfunction Title3(props) {\n  return <h1>{props.children}</h1>;\n}\n\nexport { Title1, Title2, Title3 };\n";
    let mut b = Builder::new(src);

    let f1_at = b.at("function(props)", 0).start as usize;
    let (f1, p1) = function_component(&mut b, f1_at);
    let s1_text = b.src[b.at("const Title1", 0).start as usize..].split_inclusive("};").next().unwrap().to_string();
    let (d1, decl1) = b.const_decl(&s1_text, 0, "Title1", f1);

    let arrow_at = b.at("(props) =>", 0).start;
    let p2 = b.within("(props) =>", "props");
    let param2 = b.leaf_at(p2);
    let jsx2_start = b.src[arrow_at as usize..].find('<').unwrap() as u32 + arrow_at;
    let jsx2_end = b.src[arrow_at as usize..].find("</h1>").unwrap() as u32 + arrow_at + 5;
    let jsx2 = b.node(NodeKind::Jsx, Span::new(jsx2_start, jsx2_end), vec![]);
    let arrow = b.node(NodeKind::ArrowFunction, Span::new(arrow_at, jsx2_end), vec![param2, jsx2]);
    let (d2, decl2) =
        b.const_decl("const Title2 = (props) => <h1>{props.children}</h1>;", 0, "Title2", arrow);

    let f3_at = b.at("function Title3", 0).start as usize;
    let (f3, p3) = function_component(&mut b, f3_at);
    let decl3 = b.nodes[f3].span;

    let e = export_list(&mut b, 0, &["Title1", "Title2", "Title3"]);
    b.program(vec![d1, d2, f3, e]);

    let r1 = b.within("export {", "Title1");
    let r2 = b.within("export {", "Title2");
    let r3 = b.within("export {", "Title3");
    b.symbol(decl1, vec![r1]);
    b.symbol(decl2, vec![r2]);
    b.symbol(decl3, vec![r3]);
    let children_refs: Vec<Span> = (0..3).map(|n| {
        let s = b.at("props.children", n);
        Span::new(s.start, s.start + 5)
    }).collect();
    b.symbol(p1, vec![children_refs[0]]);
    b.symbol(p2, vec![children_refs[1]]);
    b.symbol(p3, vec![children_refs[2]]);

    assert_eq!(
        finish(b.run(vec![], remove_jsx())),
        "const Title1 = function() { return null; };\n\nconst Title2 = () => null;\n\nfunction Title3() { return null; }\n\nexport { Title1, Title2, Title3 };\n"
    );
}

/// A method `<name>() { .. }` of a class body; `ret` gives the span of the
/// statement inside its body and whether it is a JSX return.
fn method(b: &mut Builder, name: &str, is_render: bool) -> usize {
    let start = b.at(&format!("{}()", name), 0).start as usize;
    let key = b.leaf_at(Span::new(start as u32, (start + name.len()) as u32));
    let body_start = b.src[start..].find('{').unwrap() + start;
    let mut stmts = vec![];
    let body_end;
    if is_render {
        let ret_start = b.src[start..].find("return").unwrap() + start;
        let jsx_start = b.src[ret_start..].find('<').unwrap() + ret_start;
        let jsx_end = b.src[ret_start..].find("</h1>").unwrap() + ret_start + 5;
        let jsx = b.node(NodeKind::Jsx, Span::new(jsx_start as u32, jsx_end as u32), vec![]);
        stmts.push(b.node(NodeKind::Other, Span::new(ret_start as u32, jsx_end as u32 + 1), vec![jsx]));
        body_end = b.src[jsx_end..].find('}').unwrap() + jsx_end + 1;
    } else {
        body_end = body_start + 2;
    }
    let body = b.node(NodeKind::FunctionBody, Span::new(body_start as u32, body_end as u32), stmts);
    let value_start = start + name.len();
    let f = b.node(
        NodeKind::Function { has_rest: false, has_body: true },
        Span::new(value_start as u32, body_end as u32),
        vec![body],
    );
    b.node(
        NodeKind::MethodDefinition { is_render },
        Span::new(start as u32, body_end as u32),
        vec![key, f],
    )
}

#[test]
fn test_replace_class_component() {
    let src = "class Title {\n  someMethod() {}\n  \n  render() {\n    return <h1>to remove</h1>;\n  }\n}\n\nexport { Title };\n";
    let mut b = Builder::new(src);
    let m1 = method(&mut b, "someMethod", false);
    let m2 = method(&mut b, "render", true);
    let body_start = b.at("{", 0).start;
    let cls_end = b.at("}\n\n", 0).start + 1;
    let body = b.node(NodeKind::ClassBody, Span::new(body_start, cls_end), vec![m1, m2]);
    let cls = b.node(
        NodeKind::Class { name: Some("Title".to_string()) },
        Span::new(0, cls_end),
        vec![body],
    );
    let e = export_list(&mut b, 0, &["Title"]);
    b.program(vec![cls, e]);
    let r = b.within("export {", "Title");
    b.symbol(Span::new(0, cls_end), vec![r]);
    assert_eq!(
        finish(b.run(vec![], remove_jsx())),
        "function Title() { return null; }\n\nexport { Title };\n"
    );
}

/// `a = b;` as a statement.
fn simple_assignment(b: &mut Builder) -> usize {
    let ta = b.leaf("a", 0);
    let vb = b.leaf("b", 0);
    let asg_span = b.at("a = b", 0);
    let asg = b.node(NodeKind::Assignment, asg_span, vec![ta, vb]);
    let stmt_span = b.at("a = b;", 0);
    let stmt = b.node(NodeKind::ExpressionStatement, stmt_span, vec![asg]);
    b.program(vec![stmt]);
    asg
}

#[test]
fn dead_assigned_value_is_not_implemented() {
    let (src, seeds) = extract_spans_for_deletion("a = b;\n    ^\n");
    let mut b = Builder::new(&src);
    let asg = simple_assignment(&mut b);
    assert_eq!(b.run(seeds, remove_jsx()), Err(ShakeError::NotImplemented(asg)));
}

#[test]
fn span_beyond_the_text_is_refused() {
    let mut b = Builder::new("a = b;\n");
    simple_assignment(&mut b);
    assert_eq!(
        b.run(vec![Span::new(3, 40)], remove_jsx()),
        Err(ShakeError::SpanOutOfRange)
    );
}

#[test]
fn no_pass_left_gives_no_fixpoint() {
    let mut b = Builder::new("a = b;\n");
    simple_assignment(&mut b);
    assert_eq!(b.run_with(vec![], remove_jsx(), 0), Err(ShakeError::NoFixpoint));
}

#[test]
fn untouched_source_is_kept() {
    let mut b = Builder::new("a = b;\n");
    simple_assignment(&mut b);
    assert_eq!(b.run(vec![], remove_jsx()).unwrap(), "a = b;\n");
}

#[test]
fn debugger_and_interfaces_are_removed() {
    let src = "debugger;\ninterface I { a: string }\nx;\n";
    let mut b = Builder::new(src);
    let d_span = b.at("debugger;", 0);
    let d = b.node(NodeKind::Debugger, d_span, vec![]);
    let i_span = b.at("interface I { a: string }", 0);
    let i = b.node(NodeKind::TsInterface, i_span, vec![]);
    let x = b.leaf("x", 0);
    let x_span = b.at("x;", 0);
    let xs = b.node(NodeKind::ExpressionStatement, x_span, vec![x]);
    b.program(vec![d, i, xs]);
    assert_eq!(b.run(vec![], remove_jsx()).unwrap(), "x;\n");
}

#[test]
fn cascading_deletion_keeps_live_declaration() {
    let (src, seeds) = extract_spans_for_deletion("const a = 42;\nexport { a, b };\n            ^\n");
    let mut b = Builder::new(&src);
    let v42 = b.leaf("42", 0);
    let (d1, decl_a) = b.const_decl("const a = 42;", 0, "a", v42);
    let e = export_list(&mut b, 0, &["a", "b"]);
    b.program(vec![d1, e]);
    let ra = b.within("export {", "a");
    b.symbol(decl_a, vec![ra]);
    assert_eq!(b.run(seeds, remove_jsx()).unwrap(), "const a = 42;\nexport { a };\n");
}

#[test]
fn lib_test_named_exports() {
    check_named_exports();
}

#[test]
fn shaker_test_named_exports() {
    check_named_exports();
}

#[test]
fn traverse_test_named_exports() {
    check_named_exports();
}

#[test]
fn lib_test_variable_declaration() {
    check_variable_declaration();
}

#[test]
fn shaker_test_variable_declaration() {
    check_variable_declaration();
}

#[test]
fn traverse_test_variable_declaration() {
    check_variable_declaration();
}

#[test]
fn lib_test_assigment() {
    check_assigment();
}

#[test]
fn traverse_test_assigment() {
    check_assigment();
}

#[test]
fn lib_test_sequence() {
    check_sequence();
}

#[test]
fn shaker_test_sequence() {
    check_sequence();
}

#[test]
fn traverse_test_sequence() {
    check_sequence();
}

#[test]
fn lib_test_conditional_expression() {
    check_conditional_expression();
}

#[test]
fn shaker_test_conditional_expression() {
    check_conditional_expression();
}

#[test]
fn traverse_test_conditional_expression() {
    check_conditional_expression();
}

#[test]
fn lib_test_logical_expression() {
    check_logical_expression();
}

#[test]
fn shaker_test_logical_expression() {
    check_logical_expression();
}

#[test]
fn lib_test_class() {
    check_class();
}

#[test]
fn shaker_test_class() {
    check_class();
}

#[test]
fn lib_test_function() {
    check_function();
}

#[test]
fn shaker_test_function() {
    check_function();
}

#[test]
fn lib_test_unused_declaration() {
    check_unused_declaration();
}

#[test]
fn traverse_test_unused_declaration() {
    check_unused_declaration();
}

#[test]
fn lib_test_moved_reference() {
    check_moved_reference();
}

#[test]
fn traverse_test_moved_reference() {
    check_moved_reference();
}
