use boomer::ast::{
    CallExpr, Expr, ExprKind, JSXElement, JSXElementChild, JSXElementName, JSXExpr,
    JSXExprContainer, JSXOpeningElement, JSXText, LineSpan, Module, ModuleItem, Stmt, StmtKind,
};
use boomer::jsx_transform::JSXTransform as ReturningJSXTransform;
use boomer::parser::Parser;
use boomer::transform::{BmrTransform, JSXTransform, OutDecl, OutItem, Slot};

fn tspan(line: usize) -> LineSpan {
    LineSpan { lo_line: line, hi_line: line }
}

fn ttext(value: &str, line: usize) -> JSXElementChild {
    JSXElementChild::Text(JSXText { span: tspan(line), value: value.to_string() })
}

fn topen(tag: &str, line: usize, self_closing: bool) -> JSXOpeningElement {
    JSXOpeningElement {
        span: tspan(line),
        name: JSXElementName::Ident(tag.to_string()),
        attrs: Vec::new(),
        self_closing,
    }
}

fn telem(tag: &str, children: Vec<JSXElementChild>, line: usize) -> JSXElement {
    JSXElement { span: tspan(line), opening: topen(tag, line, false), children, closing: None }
}

fn tself_closing(tag: &str, line: usize) -> JSXElement {
    JSXElement {
        span: tspan(line),
        opening: topen(tag, line, true),
        children: Vec::new(),
        closing: None,
    }
}

fn tident(name: &str, line: usize) -> Expr {
    Expr { span: tspan(line), kind: ExprKind::Ident(name.to_string()), code: name.to_string() }
}

fn tcontainer(e: Expr, line: usize) -> JSXElementChild {
    JSXElementChild::ExprContainer(JSXExprContainer {
        span: tspan(line),
        expr: JSXExpr::Expr(Box::new(e)),
    })
}

fn tmarkup_stmt(el: JSXElement) -> ModuleItem {
    let span = el.span;
    ModuleItem::Stmt(Stmt {
        span,
        kind: StmtKind::Expr(Box::new(Expr {
            span,
            kind: ExprKind::Element(Box::new(el)),
            code: String::new(),
        })),
        code: String::new(),
    })
}

// `<div><h1>{hello}</h1><h2>{world}</h2></div>` lowers into the template
// return statement.
#[test]
fn test() {
    let input = telem(
        "div",
        vec![
            JSXElementChild::Element(Box::new(telem(
                "h1",
                vec![tcontainer(tident("hello", 1), 1)],
                1,
            ))),
            JSXElementChild::Element(Box::new(telem(
                "h2",
                vec![tcontainer(tident("world", 1), 1)],
                1,
            ))),
        ],
        1,
    );
    let mut parser = Parser::new();
    let result = parser
        .parse(Module { items: vec![tmarkup_stmt(input)] })
        .expect("failed to parse");
    let jsx = result.jsx.unwrap();

    let mut transformer = ReturningJSXTransform::default();
    transformer.transform_jsx(jsx);
    println!("{:#?}", &transformer.stmts);

    assert_eq!(transformer.stmts.len(), 1);
    let arg = &transformer.stmts[0].arg;
    // ["<div>", [ ["<h1>", [hello], "</h1>"], ["<h2>", [world], "</h2>"] ], "</div>"]
    assert_eq!(arg.len(), 3);
    assert!(matches!(&arg[0], Slot::Lit(s) if s == "<div>"));
    assert!(matches!(&arg[2], Slot::Lit(s) if s == "</div>"));
    match &arg[1] {
        Slot::Arr(kids) => {
            assert_eq!(kids.len(), 2);
            match (&kids[0], &kids[1]) {
                (Slot::Arr(h1), Slot::Arr(h2)) => {
                    assert!(matches!(&h1[0], Slot::Lit(s) if s == "<h1>"));
                    assert!(matches!(&h2[0], Slot::Lit(s) if s == "<h2>"));
                },
                _ => panic!("nested elements become nested arrays"),
            }
        },
        _ => panic!("children array expected"),
    }
}

// `<div><h1>{hello}</h1></div>` compiles to a template equivalent to
// ["<div>", [["<h1>", [hello], "</h1>"]], "</div>"].
#[test]
fn nested_template_preserves_nesting() {
    let input = telem(
        "div",
        vec![JSXElementChild::Element(Box::new(telem(
            "h1",
            vec![tcontainer(tident("hello", 1), 1)],
            1,
        )))],
        1,
    );
    let client = None;
    let mut t = JSXTransform::new(&client);
    let decls = t.transform(input);
    assert_eq!(decls.len(), 1);
    let OutDecl::ExportRenderFn { name, body } = &decls[0];
    assert_eq!(name, "render");
    assert_eq!(body.len(), 3);
    assert!(matches!(&body[0], Slot::Lit(s) if s == "<div>"));
    assert!(matches!(&body[2], Slot::Lit(s) if s == "</div>"));
    match &body[1] {
        Slot::Arr(kids) => {
            assert_eq!(kids.len(), 1);
            match &kids[0] {
                Slot::Arr(h1) => {
                    assert_eq!(h1.len(), 3);
                    assert!(matches!(&h1[0], Slot::Lit(s) if s == "<h1>"));
                    match &h1[1] {
                        Slot::Arr(inner) => {
                            assert_eq!(inner.len(), 1);
                            assert!(matches!(&inner[0], Slot::Dyn(e)
                                if matches!(&e.kind, ExprKind::Ident(n) if n == "hello")));
                        },
                        _ => panic!("inner children array expected"),
                    }
                    assert!(matches!(&h1[2], Slot::Lit(s) if s == "</h1>"));
                },
                _ => panic!("child element becomes one nested array slot"),
            }
        },
        _ => panic!("children array expected"),
    }
}

// A capitalized root is not lowered: it stays one opaque component
// reference carrying its own children.
#[test]
fn component_root_stays_opaque() {
    let input = telem("Component", vec![ttext("Hello", 1)], 1);
    let client = None;
    let mut t = JSXTransform::new(&client);
    let decls = t.transform(input);
    let OutDecl::ExportRenderFn { name: _, body } = &decls[0];
    assert_eq!(body.len(), 1);
    match &body[0] {
        Slot::Dyn(e) => match &e.kind {
            ExprKind::Element(el) => {
                assert!(matches!(&el.opening.name,
                    JSXElementName::Ident(n) if n == "Component"));
                assert!(matches!(el.children.as_slice(),
                    [JSXElementChild::Text(t)] if t.value == "Hello"));
            },
            _ => panic!("the component element itself is the reference"),
        },
        _ => panic!("a component root is one dynamic slot"),
    }
}

// A native element always lowers to three slots, empty children included;
// a self-closing element to exactly two.
#[test]
fn template_shape_is_stable() {
    let client = None;

    let mut t = JSXTransform::new(&client);
    let decls = t.transform(telem("div", Vec::new(), 1));
    let OutDecl::ExportRenderFn { name: _, body } = &decls[0];
    assert_eq!(body.len(), 3);
    assert!(matches!(&body[0], Slot::Lit(s) if s == "<div>"));
    assert!(matches!(&body[1], Slot::Arr(v) if v.is_empty()));
    assert!(matches!(&body[2], Slot::Lit(s) if s == "</div>"));

    let mut t2 = JSXTransform::new(&client);
    let decls2 = t2.transform(tself_closing("br", 1));
    let OutDecl::ExportRenderFn { name: _, body: body2 } = &decls2[0];
    assert_eq!(body2.len(), 2);
    assert!(matches!(&body2[0], Slot::Lit(s) if s == "<br>"));
    assert!(matches!(&body2[1], Slot::Arr(v) if v.is_empty()));
}

// The whole module transformation: declarations pass through, server
// statements stay verbatim, and the render function closes the module.
#[test]
fn bmr_transform_assembles_module() {
    let decl = boomer::ast::ModuleDecl {
        span: tspan(1),
        code: "import { x } from \"./x.js\";".to_string(),
    };
    let server_stmt = Stmt {
        span: tspan(3),
        kind: StmtKind::FnDecl(boomer::ast::FnDecl {
            ident: "load".to_string(),
            is_async: true,
            params: Vec::new(),
            body: Vec::new(),
        }),
        code: "async function load() {}".to_string(),
    };
    let server_block = Stmt {
        span: tspan(2),
        kind: StmtKind::Block(vec![server_stmt]),
        code: String::new(),
    };
    let items = vec![
        ModuleItem::Decl(decl),
        ModuleItem::Stmt(Stmt {
            span: tspan(2),
            kind: StmtKind::Labeled(boomer::ast::LabeledStmt {
                label: "server".to_string(),
                label_span: tspan(2),
                body: Box::new(server_block),
            }),
            code: String::new(),
        }),
        tmarkup_stmt(telem("div", Vec::new(), 5)),
    ];
    let mut parser = Parser::new();
    let result = parser.parse(Module { items }).expect("parses");
    let out = BmrTransform::transform(result);
    assert_eq!(out.items.len(), 3);
    assert!(matches!(&out.items[0],
        OutItem::Decl(d) if d.code == "import { x } from \"./x.js\";"));
    assert!(matches!(&out.items[1],
        OutItem::Stmt(s) if s.code == "async function load() {}"));
    assert!(matches!(&out.items[2],
        OutItem::Render(OutDecl::ExportRenderFn { name, .. }) if name == "render"));
}

// Reactive state accessors are recognized from the client block.
#[test]
fn state_accessors_are_recognized() {
    let client = Some(boomer::parser::ClientBlock {
        block: Vec::new(),
        use_state: boomer::parser::UseState {
            get: vec!["count".to_string()],
            set: vec!["setCount".to_string()],
        },
    });
    let t = JSXTransform::new(&client);
    assert!(t.is_get_state(&"count".to_string()));
    assert!(!t.is_get_state(&"setCount".to_string()));
    assert!(t.is_set_state(&"setCount".to_string()));
    assert!(!t.is_set_state(&"count".to_string()));

    let none = None;
    let t2 = JSXTransform::new(&none);
    assert!(!t2.is_get_state(&"count".to_string()));
    assert!(!t2.is_set_state(&"setCount".to_string()));
}

// An empty expression container contributes no slot; a call keeps its
// expression.
#[test]
fn container_lowering_cases() {
    let empty_container = JSXElementChild::ExprContainer(JSXExprContainer {
        span: tspan(1),
        expr: JSXExpr::Empty,
    });
    let call = Expr {
        span: tspan(1),
        kind: ExprKind::Call(CallExpr {
            callee: Box::new(tident("getData", 1)),
            args: Vec::new(),
        }),
        code: "getData()".to_string(),
    };
    let input = telem("div", vec![empty_container, tcontainer(call, 1)], 1);
    let client = None;
    let mut t = JSXTransform::new(&client);
    let decls = t.transform(input);
    let OutDecl::ExportRenderFn { name: _, body } = &decls[0];
    match &body[1] {
        Slot::Arr(kids) => {
            assert_eq!(kids.len(), 1);
            assert!(matches!(&kids[0], Slot::Dyn(e) if e.code == "getData()"));
        },
        _ => panic!("children array expected"),
    }
}
