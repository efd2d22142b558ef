use boomer::ast::{
    Expr, ExprKind, JSXElement, JSXElementChild, JSXElementName, JSXExpr, JSXExprContainer,
    JSXOpeningElement, JSXText, LineSpan, Module, ModuleItem, Stmt, StmtKind,
};
use boomer::parser::{BoomerMarkupTransformer, Child, Error, Fatal, Node, Parser};

fn pspan(line: usize) -> LineSpan {
    LineSpan { lo_line: line, hi_line: line }
}

fn ptext(value: &str, line: usize) -> JSXElementChild {
    JSXElementChild::Text(JSXText { span: pspan(line), value: value.to_string() })
}

fn pelem(tag: &str, children: Vec<JSXElementChild>, line: usize) -> JSXElement {
    JSXElement {
        span: pspan(line),
        opening: JSXOpeningElement {
            span: pspan(line),
            name: JSXElementName::Ident(tag.to_string()),
            attrs: Vec::new(),
            self_closing: false,
        },
        children,
        closing: None,
    }
}

fn pident(name: &str, line: usize) -> Expr {
    Expr { span: pspan(line), kind: ExprKind::Ident(name.to_string()), code: name.to_string() }
}

fn pcall(callee: &str, args: Vec<Expr>, line: usize) -> Expr {
    let code = format!("{}()", callee);
    Expr {
        span: pspan(line),
        kind: ExprKind::Call(boomer::ast::CallExpr {
            callee: Box::new(pident(callee, line)),
            args,
        }),
        code,
    }
}

fn pcontainer(e: Expr, line: usize) -> JSXElementChild {
    JSXElementChild::ExprContainer(JSXExprContainer {
        span: pspan(line),
        expr: JSXExpr::Expr(Box::new(e)),
    })
}

fn pmarkup_stmt(el: JSXElement) -> ModuleItem {
    let span = el.span;
    ModuleItem::Stmt(Stmt {
        span,
        kind: StmtKind::Expr(Box::new(Expr {
            span,
            kind: ExprKind::Element(Box::new(el)),
            code: String::new(),
        })),
        code: String::new(),
    })
}

fn plabeled(label: &str, body: Stmt, line: usize) -> ModuleItem {
    ModuleItem::Stmt(Stmt {
        span: pspan(line),
        kind: StmtKind::Labeled(boomer::ast::LabeledStmt {
            label: label.to_string(),
            label_span: pspan(line),
            body: Box::new(body),
        }),
        code: String::new(),
    })
}

fn pblock(stmts: Vec<Stmt>, line: usize) -> Stmt {
    Stmt { span: pspan(line), kind: StmtKind::Block(stmts), code: String::new() }
}

fn pfn_decl(name: &str, is_async: bool, line: usize) -> Stmt {
    Stmt {
        span: pspan(line),
        kind: StmtKind::FnDecl(boomer::ast::FnDecl {
            ident: name.to_string(),
            is_async,
            params: Vec::new(),
            body: Vec::new(),
        }),
        code: String::new(),
    }
}

// Parses the markup root `<h1>Hello World</h1>` and classifies it as a
// native element holding one text child.
#[test]
fn it_parses_html_element() {
    let input = pelem("h1", vec![ptext("Hello World", 1)], 1);
    let mut parser = Parser::new();
    let result = parser
        .parse(Module { items: vec![pmarkup_stmt(input)] })
        .expect("failed to parse");
    let jsx = result.jsx.unwrap();
    let mut transformer = BoomerMarkupTransformer;
    let transformed = transformer.parse_boomer_markup(jsx);
    assert!(matches!(
        transformed.root,
        Node::HTMLElement(ref h)
            if matches!(h.children.as_slice(),
                [Child::Text(ref t)] if t.value == "Hello World")
    ));
}

// `<Component>Hello World</Component>`: a capitalized tag is a component,
// its child text attached for independent compilation.
#[test]
fn it_parses_component() {
    let input = pelem("Component", vec![ptext("Hello World", 1)], 1);
    let mut parser = Parser::new();
    let result = parser
        .parse(Module { items: vec![pmarkup_stmt(input)] })
        .expect("failed to parse");
    let jsx = result.jsx.unwrap();
    let mut transformer = BoomerMarkupTransformer;
    let transformed = transformer.parse_boomer_markup(jsx);
    assert!(matches!(
        transformed.root,
        Node::Component(ref c)
            if matches!(c.children.as_slice(),
                [Child::Text(ref t)] if t.value == "Hello World")
    ));
}

// `<nav><NavItem>Home</NavItem><NavItem>About</NavItem></nav>`: components
// nested under a native element classify as component children.
#[test]
fn it_parses_nested_elements() {
    let nav_item_home =
        JSXElementChild::Element(Box::new(pelem("NavItem", vec![ptext("Home", 1)], 1)));
    let nav_item_about =
        JSXElementChild::Element(Box::new(pelem("NavItem", vec![ptext("About", 1)], 1)));
    let input = pelem("nav", vec![nav_item_home, nav_item_about], 1);
    let mut parser = Parser::new();
    let result = parser
        .parse(Module { items: vec![pmarkup_stmt(input)] })
        .expect("failed to parse");
    let jsx = result.jsx.unwrap();
    let mut transformer = BoomerMarkupTransformer;
    let transformed = transformer.parse_boomer_markup(jsx);
    assert!(matches!(
        transformed.root,
        Node::HTMLElement(ref h)
            if matches!(h.children.as_slice(), [Child::Component(_), Child::Component(_)])
    ));
}

// `<div>{getData()}</div>`: an embedded call becomes an expression child.
#[test]
fn it_parses_expressions() {
    let input = pelem("div", vec![pcontainer(pcall("getData", Vec::new(), 1), 1)], 1);
    let mut parser = Parser::new();
    let result = parser
        .parse(Module { items: vec![pmarkup_stmt(input)] })
        .expect("failed to parse");
    let jsx = result.jsx.unwrap();
    let mut transformer = BoomerMarkupTransformer;
    let transformed = transformer.parse_boomer_markup(jsx);
    assert!(matches!(
        transformed.root,
        Node::HTMLElement(ref h)
            if matches!(h.children.as_slice(), [Child::Expression(_)])
    ));
}

// One markup root parses cleanly; a second one is reported exactly once and
// the first is kept.
#[test]
fn two_markup_roots_report_one_error() {
    let first = pelem("div", Vec::new(), 1);
    let second = pelem("span", Vec::new(), 2);
    let mut parser = Parser::new();
    let result = parser
        .parse(Module { items: vec![pmarkup_stmt(first), pmarkup_stmt(second)] })
        .expect("a markup root is present");
    match result.jsx.unwrap().opening.name {
        JSXElementName::Ident(tag) => assert_eq!(tag, "div"),
        _ => panic!("the first root should be kept"),
    }
    let errors = parser.take_errors();
    assert_eq!(errors.len(), 1);
    assert_eq!(errors[0].1, Error::MoreThanOneJSXRoot);
}

// An input without any markup root fails terminally.
#[test]
fn missing_markup_root_is_fatal() {
    let mut parser = Parser::new();
    let r = parser.parse(Module { items: vec![plabeled("server", pblock(Vec::new(), 1), 1)] });
    assert_eq!(r.unwrap_err(), Fatal::MissingMarkupRoot);
}

// A label other than server/client yields the error carrying that label.
#[test]
fn unknown_label_is_reported() {
    let mut parser = Parser::new();
    let result = parser
        .parse(Module {
            items: vec![
                plabeled("database", pblock(Vec::new(), 1), 1),
                pmarkup_stmt(pelem("div", Vec::new(), 2)),
            ],
        })
        .expect("markup root present");
    assert!(result.server.is_none());
    assert!(result.client.is_none());
    let errors = parser.take_errors();
    assert_eq!(errors.len(), 1);
    assert_eq!(
        errors[0].1,
        Error::UnexpectedLabeledStatement("database".to_string())
    );
    assert_eq!(
        errors[0].1.msg(),
        "database is not a valid labeled block"
    );
}

// A `server` label not heading a block is rejected with its own error.
#[test]
fn server_label_must_head_block() {
    let mut parser = Parser::new();
    let result = parser
        .parse(Module {
            items: vec![
                plabeled("server", pfn_decl("load", false, 1), 1),
                pmarkup_stmt(pelem("div", Vec::new(), 2)),
            ],
        })
        .expect("markup root present");
    assert!(result.server.is_none());
    let errors = parser.take_errors();
    assert_eq!(errors.len(), 1);
    assert_eq!(errors[0].1, Error::LabeledServerIsNotBlock);
    assert_eq!(
        errors[0].1.msg(),
        "the server label is not for a block statement"
    );
}

// Two server blocks both declaring `load`: exactly one redeclaration error,
// and the metadata of the declaration scanned last wins.
#[test]
fn server_function_redeclared_across_blocks() {
    let mut parser = Parser::new();
    let result = parser
        .parse(Module {
            items: vec![
                plabeled("server", pblock(vec![pfn_decl("load", false, 2)], 1), 1),
                plabeled("server", pblock(vec![pfn_decl("load", true, 4)], 3), 3),
                pmarkup_stmt(pelem("div", Vec::new(), 5)),
            ],
        })
        .expect("markup root present");
    let errors = parser.take_errors();
    assert_eq!(errors.len(), 1);
    assert_eq!(
        errors[0].1,
        Error::ServerFunctionRedeclared("load".to_string())
    );
    assert_eq!(
        errors[0].1.msg(),
        "server functions can only be declared once, load has multiple declarations"
    );
    let server = result.server.unwrap();
    assert!(server.contains_function_declaration(&"load".to_string()));
    let fd = server.get_function_declaration(&"load".to_string()).unwrap();
    assert!(fd.is_async);
    assert!(!server.contains_function_declaration(&"save".to_string()));
    assert!(server.get_function_declaration(&"save".to_string()).is_none());
}

// A client block's two-identifier destructuring of a `useState` call
// records the getter and the setter.
#[test]
fn client_use_state_pairs_are_recorded() {
    let use_state_call = Expr {
        span: pspan(2),
        kind: ExprKind::Call(boomer::ast::CallExpr {
            callee: Box::new(pident("useState", 2)),
            args: vec![],
        }),
        code: "useState(0)".to_string(),
    };
    let var_decl = Stmt {
        span: pspan(2),
        kind: StmtKind::VarDecl(vec![boomer::ast::VarDeclarator {
            span: pspan(2),
            name: boomer::ast::Pat::ArrayTwo("count".to_string(), "setCount".to_string()),
            init: Some(Box::new(use_state_call)),
        }]),
        code: String::new(),
    };
    let mut parser = Parser::new();
    let result = parser
        .parse(Module {
            items: vec![
                plabeled("client", pblock(vec![var_decl], 1), 1),
                pmarkup_stmt(pelem("div", Vec::new(), 3)),
            ],
        })
        .expect("markup root present");
    let client = result.client.unwrap();
    assert_eq!(client.use_state.get, vec!["count".to_string()]);
    assert_eq!(client.use_state.set, vec!["setCount".to_string()]);
    assert!(parser.take_errors().is_empty());
}

// Tag casing decides the classification, through the lowercase test.
#[test]
fn tag_casing_decides_classification() {
    let native = pelem("div", Vec::new(), 1);
    let comp = pelem("Div", Vec::new(), 1);
    assert!(native.is_html());
    assert!(!native.is_component());
    assert!(!comp.is_html());
    assert!(comp.is_component());
}

// A top-level expression statement without markup is no admitted shape: it
// is reported like any other unexpected statement.
#[test]
fn bare_expression_statement_is_reported() {
    let bare = ModuleItem::Stmt(Stmt {
        span: pspan(1),
        kind: StmtKind::Expr(Box::new(pcall("getData", Vec::new(), 1))),
        code: "getData()".to_string(),
    });
    let mut parser = Parser::new();
    let result = parser
        .parse(Module { items: vec![bare, pmarkup_stmt(pelem("div", Vec::new(), 2))] })
        .expect("markup root present");
    assert!(result.jsx.is_some());
    let errors = parser.take_errors();
    assert_eq!(errors.len(), 1);
    assert_eq!(errors[0].0, pspan(1));
    assert_eq!(errors[0].1, Error::UnexpectedTopLevelStatement);
}
