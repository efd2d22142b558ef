use boomer::ast::{
    Expr, ExprKind, JSXAttr, JSXAttrName, JSXAttrOrSpread, JSXAttrValue, JSXClosingElement,
    JSXElement, JSXElementChild, JSXElementName, JSXExpr, JSXExprContainer, JSXOpeningElement,
    JSXText, LineSpan, Module, ModuleItem, Stmt, StmtKind,
};
use boomer::boomer::{Boomer, TopLevelStmt};
use boomer::codegen::{BasicJSXWriter, Emitter};
use boomer::parser::Parser;

fn cspan(lo: usize, hi: usize) -> LineSpan {
    LineSpan { lo_line: lo, hi_line: hi }
}

fn ctext(value: &str, line: usize) -> JSXElementChild {
    JSXElementChild::Text(JSXText { span: cspan(line, line), value: value.to_string() })
}

fn celem(
    tag: &str,
    attrs: Vec<JSXAttrOrSpread>,
    children: Vec<JSXElementChild>,
    lo: usize,
    hi: usize,
) -> JSXElement {
    JSXElement {
        span: cspan(lo, hi),
        opening: JSXOpeningElement {
            span: cspan(lo, lo),
            name: JSXElementName::Ident(tag.to_string()),
            attrs,
            self_closing: false,
        },
        children,
        closing: Some(JSXClosingElement {
            span: cspan(hi, hi),
            name: JSXElementName::Ident(tag.to_string()),
        }),
    }
}

fn cattr(name: &str, text: &str, line: usize) -> JSXAttrOrSpread {
    JSXAttrOrSpread::Attr(JSXAttr {
        span: cspan(line, line),
        name: JSXAttrName::Ident(name.to_string()),
        value: Some(JSXAttrValue::Lit { span: cspan(line, line), text: text.to_string() }),
    })
}

fn cident(name: &str, line: usize) -> Expr {
    Expr { span: cspan(line, line), kind: ExprKind::Ident(name.to_string()), code: name.to_string() }
}

fn ccontainer(e: Expr, line: usize) -> JSXElementChild {
    JSXElementChild::ExprContainer(JSXExprContainer {
        span: cspan(line, line),
        expr: JSXExpr::Expr(Box::new(e)),
    })
}

// The writer appends exactly what it is given.
#[test]
fn writer_appends() {
    let mut w = BasicJSXWriter::new();
    assert!(w.write("ab").is_ok());
    assert!(w.raw_write("c").is_ok());
    assert!(w.write_space().is_ok());
    assert!(w.write_newline().is_ok());
    assert!(w.write_raw("d").is_ok());
    assert!(w.write_str("e\nf").is_ok());
    assert!(w.write("").is_ok());
    assert_eq!(w.out, "abc \nde\nf");
}

// One element on one line: no breaks anywhere, attributes parted by one
// space, the embedded expression in its template hole.
#[test]
fn emit_single_line_element() {
    let el = celem(
        "div",
        vec![cattr("id", "\"a\"", 1), cattr("class", "\"b\"", 1)],
        vec![ctext("hi ", 1), ccontainer(cident("name", 1), 1)],
        1,
        1,
    );
    let mut e = Emitter::new();
    assert!(e.emit_bmr_jsx(&el).is_ok());
    assert_eq!(
        e.wr.out,
        "export const $$Component = [`<div id=\"a\" class=\"b\">hi `,name,`</div>`]"
    );
}

// The author's line decisions survive: children on their own lines get the
// breaks back, attributes on different lines are parted by a break.
#[test]
fn emit_multi_line_element() {
    let el = celem(
        "div",
        vec![cattr("id", "\"a\"", 1), cattr("class", "\"b\"", 2)],
        vec![ctext("one", 3), ctext("two", 4)],
        1,
        5,
    );
    let mut e = Emitter::new();
    assert!(e.emit_bmr_jsx(&el).is_ok());
    assert_eq!(
        e.wr.out,
        "export const $$Component = [`<div id=\"a\"\nclass=\"b\">\none\ntwo\n</div>`]"
    );
}

// The two emission passes: declarations and server statements verbatim in
// their own buffer, the markup in the template buffer.
#[test]
fn emit_bmr_stmts_splits_passes() {
    let decl = ModuleItem::Decl(boomer::ast::ModuleDecl {
        span: cspan(1, 1),
        code: "import { a } from \"./a.js\";\n".to_string(),
    });
    let server_stmt = Stmt {
        span: cspan(2, 2),
        kind: StmtKind::Other,
        code: "const a = 1;\n".to_string(),
    };
    let server_block = Stmt {
        span: cspan(1, 3),
        kind: StmtKind::Block(vec![server_stmt]),
        code: String::new(),
    };
    let labeled = ModuleItem::Stmt(Stmt {
        span: cspan(1, 3),
        kind: StmtKind::Labeled(boomer::ast::LabeledStmt {
            label: "server".to_string(),
            label_span: cspan(1, 1),
            body: Box::new(server_block),
        }),
        code: String::new(),
    });
    let el = celem("p", Vec::new(), vec![ctext("x", 4)], 4, 4);
    let span = el.span;
    let markup = ModuleItem::Stmt(Stmt {
        span,
        kind: StmtKind::Expr(Box::new(Expr {
            span,
            kind: ExprKind::Element(Box::new(el)),
            code: String::new(),
        })),
        code: String::new(),
    });
    let mut parser = Parser::new();
    let result = parser
        .parse(Module { items: vec![decl, labeled, markup] })
        .expect("parses");
    let mut e = Emitter::new();
    assert!(e.emit_bmr_stmts(result).is_ok());
    assert_eq!(e.code_out, "import { a } from \"./a.js\";\nconst a = 1;\n");
    assert_eq!(e.wr.out, "export const $$Component = [`<p >x</p>`]");
}

// The strict validator classifies the three admitted top-level shapes and
// rejects the rest.
#[test]
fn boomer_classifies_top_level() {
    let mut b = Boomer::new();
    let server = Stmt {
        span: cspan(1, 1),
        kind: StmtKind::Labeled(boomer::ast::LabeledStmt {
            label: "server".to_string(),
            label_span: cspan(1, 1),
            body: Box::new(Stmt {
                span: cspan(1, 1),
                kind: StmtKind::Block(vec![]),
                code: String::new(),
            }),
        }),
        code: String::new(),
    };
    assert_eq!(
        b.visit_mut_top_level_stmt(&server),
        Ok(TopLevelStmt::Server)
    );

    let client = Stmt {
        span: cspan(2, 2),
        kind: StmtKind::Labeled(boomer::ast::LabeledStmt {
            label: "client".to_string(),
            label_span: cspan(2, 2),
            body: Box::new(Stmt {
                span: cspan(2, 2),
                kind: StmtKind::Block(vec![]),
                code: String::new(),
            }),
        }),
        code: String::new(),
    };
    assert_eq!(
        b.visit_mut_top_level_stmt(&client),
        Ok(TopLevelStmt::Client)
    );

    let el = celem("div", Vec::new(), Vec::new(), 3, 3);
    let span = el.span;
    let jsx = Stmt {
        span,
        kind: StmtKind::Expr(Box::new(Expr {
            span,
            kind: ExprKind::Element(Box::new(el)),
            code: String::new(),
        })),
        code: String::new(),
    };
    assert_eq!(b.visit_mut_top_level_stmt(&jsx), Ok(TopLevelStmt::JSX));

    let other = Stmt {
        span: cspan(4, 4),
        kind: StmtKind::Other,
        code: "let x = 1;".to_string(),
    };
    assert_eq!(
        b.visit_mut_top_level_stmt(&other),
        Err(boomer::parser::Error::UnexpectedTopLevelStatement)
    );

    let bad_label = Stmt {
        span: cspan(5, 5),
        kind: StmtKind::Labeled(boomer::ast::LabeledStmt {
            label: "shared".to_string(),
            label_span: cspan(5, 5),
            body: Box::new(Stmt {
                span: cspan(5, 5),
                kind: StmtKind::Block(vec![]),
                code: String::new(),
            }),
        }),
        code: String::new(),
    };
    assert_eq!(
        b.visit_mut_top_level_stmt(&bad_label),
        Err(boomer::parser::Error::UnexpectedLabeledStatement(
            "shared".to_string()
        ))
    );

    let items = vec![ModuleItem::Stmt(server), ModuleItem::Stmt(jsx)];
    assert_eq!(b.visit_mut_module_items(&items), Ok(()));
    let bad_items = vec![ModuleItem::Stmt(client), ModuleItem::Stmt(other)];
    assert_eq!(
        b.visit_mut_module_items(&bad_items),
        Err(boomer::parser::Error::UnexpectedTopLevelStatement)
    );
}

// A self-closing element's opening tag carries the slash.
#[test]
fn emit_self_closing() {
    let el = JSXElement {
        span: cspan(1, 1),
        opening: JSXOpeningElement {
            span: cspan(1, 1),
            name: JSXElementName::Ident("br".to_string()),
            attrs: Vec::new(),
            self_closing: true,
        },
        children: Vec::new(),
        closing: None,
    };
    let mut e = Emitter::new();
    assert!(e.emit_bmr_jsx(&el).is_ok());
    assert_eq!(e.wr.out, "export const $$Component = [`<br />`]");
}

// E2E: `<div><h1>{hello}</h1></div>` compiles and serializes to a render
// function returning ["<div>", [["<h1>", [hello], "</h1>"]], "</div>"].
#[test]
fn render_module_text_end_to_end() {
    let h1 = JSXElementChild::Element(Box::new(JSXElement {
        span: cspan(1, 1),
        opening: JSXOpeningElement {
            span: cspan(1, 1),
            name: JSXElementName::Ident("h1".to_string()),
            attrs: Vec::new(),
            self_closing: false,
        },
        children: vec![ccontainer(cident("hello", 1), 1)],
        closing: None,
    }));
    let root = JSXElement {
        span: cspan(1, 1),
        opening: JSXOpeningElement {
            span: cspan(1, 1),
            name: JSXElementName::Ident("div".to_string()),
            attrs: Vec::new(),
            self_closing: false,
        },
        children: vec![h1],
        closing: None,
    };
    let span = root.span;
    let markup = ModuleItem::Stmt(Stmt {
        span,
        kind: StmtKind::Expr(Box::new(Expr {
            span,
            kind: ExprKind::Element(Box::new(root)),
            code: String::new(),
        })),
        code: String::new(),
    });
    let mut parser = Parser::new();
    let result = parser.parse(Module { items: vec![markup] }).expect("parses");
    let out = boomer::transform::BmrTransform::transform(result);
    let text = boomer::codegen::render_module_text(&out);
    assert_eq!(
        text,
        "export function render() {\n    return [\"<div>\", [[\"<h1>\", [hello], \"</h1>\"]], \"</div>\"];\n}\n"
    );
}

// Member and namespaced tag names serialize with their separators.
#[test]
fn emit_member_and_namespaced_names() {
    let member = JSXElement {
        span: cspan(1, 1),
        opening: JSXOpeningElement {
            span: cspan(1, 1),
            name: JSXElementName::Member(boomer::ast::JSXMemberExpr {
                obj: vec!["A".to_string(), "B".to_string()],
                prop: "C".to_string(),
            }),
            attrs: Vec::new(),
            self_closing: true,
        },
        children: Vec::new(),
        closing: None,
    };
    let mut e = Emitter::new();
    assert!(e.emit_bmr_jsx(&member).is_ok());
    assert_eq!(e.wr.out, "export const $$Component = [`<A.B.C />`]");

    let namespaced = JSXElement {
        span: cspan(1, 1),
        opening: JSXOpeningElement {
            span: cspan(1, 1),
            name: JSXElementName::Namespaced(boomer::ast::JSXNamespacedName {
                ns: "svg".to_string(),
                name: "path".to_string(),
            }),
            attrs: Vec::new(),
            self_closing: true,
        },
        children: Vec::new(),
        closing: None,
    };
    let mut e2 = Emitter::new();
    assert!(e2.emit_bmr_jsx(&namespaced).is_ok());
    assert_eq!(e2.wr.out, "export const $$Component = [`<svg:path />`]");
}

// A spread child serializes as a braced spread.
#[test]
fn emit_spread_child() {
    let spread = JSXElementChild::Spread(boomer::ast::JSXSpreadChild {
        span: cspan(1, 1),
        expr: Box::new(cident("items", 1)),
    });
    let el = celem("ul", Vec::new(), vec![spread], 1, 1);
    let mut e = Emitter::new();
    assert!(e.emit_bmr_jsx(&el).is_ok());
    assert_eq!(e.wr.out, "export const $$Component = [`<ul >{...items}</ul>`]");
}

// The remaining error and failure messages, word for word.
#[test]
fn remaining_messages() {
    assert_eq!(
        boomer::parser::Error::MoreThanOneJSXRoot.msg(),
        "only one JSX root permitted per file"
    );
    assert_eq!(
        boomer::parser::Error::LabeledClientIsNotBlock.msg(),
        "the client label is not for a block statement"
    );
    assert_eq!(
        boomer::parser::Error::UnexpectedTopLevelStatement.msg(),
        "unexpected top level statement"
    );
    assert_eq!(
        boomer::parser::Fatal::MissingMarkupRoot.msg(),
        "no markup root was found in this file"
    );
    assert_eq!(
        boomer::parser::Fatal::ScopeStackEmpty.msg(),
        "unexpected: scope stack is empty"
    );
    assert_eq!(
        boomer::parser::Fatal::ScopeStackUnbalanced.msg(),
        "unexpected: scope stack has more than one scope"
    );
}
