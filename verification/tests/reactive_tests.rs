use boomer::ast::{
    CallExpr, Expr, ExprKind, FnDecl, LabeledStmt, LineSpan, Module, ModuleItem, Pat, Stmt,
    StmtKind, VarDeclarator,
};
use boomer::reactive::Parser;

fn rspan(line: usize) -> LineSpan {
    LineSpan { lo_line: line, hi_line: line }
}

fn rident(name: &str, line: usize) -> Expr {
    Expr { span: rspan(line), kind: ExprKind::Ident(name.to_string()), code: name.to_string() }
}

fn rcall(callee: Expr, args: Vec<Expr>, line: usize) -> Expr {
    Expr {
        span: rspan(line),
        kind: ExprKind::Call(CallExpr { callee: Box::new(callee), args }),
        code: String::new(),
    }
}

fn rexpr_stmt(e: Expr, line: usize) -> Stmt {
    Stmt { span: rspan(line), kind: StmtKind::Expr(Box::new(e)), code: String::new() }
}

fn rreactive_stmt(e: Expr, line: usize) -> Stmt {
    Stmt {
        span: rspan(line),
        kind: StmtKind::Labeled(LabeledStmt {
            label: "$".to_string(),
            label_span: rspan(line),
            body: Box::new(rexpr_stmt(e, line)),
        }),
        code: String::new(),
    }
}

fn rfn_decl(name: &str, params: Vec<Pat>, body: Vec<Stmt>, line: usize) -> Stmt {
    Stmt {
        span: rspan(line),
        kind: StmtKind::FnDecl(FnDecl {
            ident: name.to_string(),
            is_async: false,
            params,
            body,
        }),
        code: String::new(),
    }
}

fn rvar_decl(name: &str, line: usize) -> Stmt {
    Stmt {
        span: rspan(line),
        kind: StmtKind::VarDecl(vec![VarDeclarator {
            span: rspan(line),
            name: Pat::Ident(name.to_string()),
            init: None,
        }]),
        code: String::new(),
    }
}

fn ritems(stmts: Vec<Stmt>) -> Module {
    Module { items: stmts.into_iter().map(ModuleItem::Stmt).collect() }
}

// The whole-module walk: two functions with reactive statements, a nested
// inert function, a top-level variable, a call and an assignment.
#[test]
fn it_does_something() {
    let log_fn = rfn_decl(
        "log",
        vec![Pat::Ident("x".to_string())],
        vec![
            rreactive_stmt(
                rcall(rident("console.log", 3), vec![rident("x", 3)], 3),
                3,
            ),
            rfn_decl("someInternalFuncion", vec![], vec![
                Stmt { span: rspan(6), kind: StmtKind::Other, code: "return true".to_string() },
            ], 5),
        ],
        2,
    );
    let error_fn = rfn_decl(
        "error",
        vec![Pat::Ident("x".to_string())],
        vec![rreactive_stmt(
            rcall(rident("console.error", 11), vec![rident("x", 11)], 11),
            11,
        )],
        10,
    );
    let module = ritems(vec![
        log_fn,
        error_fn,
        rvar_decl("value", 14),
        rexpr_stmt(rcall(rident("log", 16), vec![rident("value", 16)], 16), 16),
        Stmt { span: rspan(18), kind: StmtKind::Other, code: "value = 20".to_string() },
    ]);

    let mut parser = Parser::new(&module);
    let result = parser.parse_module().expect("failed to parse r_graph");
    println!("result: {:#?}", &result);

    // Both functions hold reactive statements, so both are retained.
    assert_eq!(result.root.children.len(), 2);
    // The top-level variable is recorded on the root scope.
    assert_eq!(result.root.var_decls, vec!["value".to_string()]);
}

// A reactive statement `$: save(user)` inside a function scope records
// `user` as that scope's signal.
#[test]
fn reactive_statement_records_signals() {
    let f = rfn_decl(
        "form",
        vec![],
        vec![rreactive_stmt(
            rcall(rident("save", 2), vec![rident("user", 2)], 2),
            2,
        )],
        1,
    );
    let module = ritems(vec![f]);
    let mut parser = Parser::new(&module);
    let graph = parser.parse_module().expect("graph builds");
    assert_eq!(graph.root.children.len(), 1);
    let id = graph.root.children[0];
    let scope = graph.arena.slots[id].as_ref().expect("scope is stored");
    assert_eq!(scope.reactive_statements.len(), 1);
    assert_eq!(scope.reactive_statements[0].signals, vec!["user".to_string()]);
    assert_eq!(scope.parent, graph.root.id);
}

// A nested-function chain where only the innermost function is reactive:
// the tree is exactly the path from root to that scope; the inert sibling
// leaves nothing behind.
#[test]
fn pruning_keeps_only_the_reactive_path() {
    let innermost = rfn_decl(
        "inner",
        vec![],
        vec![rreactive_stmt(
            rcall(rident("touch", 4), vec![rident("signal", 4)], 4),
            4,
        )],
        3,
    );
    let sibling = rfn_decl("quiet", vec![], vec![rvar_decl("unused", 7)], 6);
    let middle = rfn_decl("middle", vec![], vec![innermost, sibling], 2);
    let outer = rfn_decl("outer", vec![], vec![middle], 1);
    let module = ritems(vec![outer]);
    let mut parser = Parser::new(&module);
    let graph = parser.parse_module().expect("graph builds");

    // Only the path outer -> middle -> inner is retained.
    assert_eq!(graph.root.children.len(), 1);
    let outer_id = graph.root.children[0];
    let outer_scope = graph.arena.slots[outer_id].as_ref().unwrap();
    assert_eq!(outer_scope.children.len(), 1);
    let middle_id = outer_scope.children[0];
    let middle_scope = graph.arena.slots[middle_id].as_ref().unwrap();
    assert_eq!(middle_scope.children.len(), 1);
    let inner_id = middle_scope.children[0];
    let inner_scope = graph.arena.slots[inner_id].as_ref().unwrap();
    assert!(inner_scope.children.is_empty());
    assert_eq!(inner_scope.reactive_statements.len(), 1);

    // Parent and children handles agree along the whole path.
    assert_eq!(outer_scope.parent, graph.root.id);
    assert_eq!(middle_scope.parent, outer_scope.id);
    assert_eq!(outer_scope.id, Some(outer_id));
    assert_eq!(middle_scope.id, Some(middle_id));
    assert_eq!(inner_scope.parent, middle_scope.id);

    // Three retained scopes in all: the sibling is absent.
    let stored = graph.arena.slots.iter().filter(|s| s.is_some()).count();
    assert_eq!(stored, 3);
    // Every stored scope leads to reactive content: none is inert.
    for slot in graph.arena.slots.iter() {
        if let Some(sc) = slot {
            assert!(!sc.reactive_statements.is_empty() || !sc.children.is_empty());
        }
    }
}

// A reactive statement whose body is not an expression statement is a
// terminal failure.
#[test]
fn reactive_block_body_is_fatal() {
    let bad = Stmt {
        span: rspan(1),
        kind: StmtKind::Labeled(LabeledStmt {
            label: "$".to_string(),
            label_span: rspan(1),
            body: Box::new(Stmt {
                span: rspan(1),
                kind: StmtKind::Block(vec![]),
                code: String::new(),
            }),
        }),
        code: String::new(),
    };
    let module = ritems(vec![bad]);
    let mut parser = Parser::new(&module);
    let err = parser.parse_module().unwrap_err();
    assert_eq!(err, boomer::parser::Fatal::ReactiveBodyNotExpression);
    assert_eq!(
        err.msg(),
        "only expression statements are supported in reactive statement"
    );
}

// Signals come in visit order: a call's own identifier arguments first,
// then the arguments of nested calls.
#[test]
fn signals_follow_visit_order() {
    let inner_call = rcall(rident("g", 2), vec![rident("x", 2)], 2);
    let outer_call = rcall(rident("f", 2), vec![inner_call, rident("y", 2)], 2);
    let f = rfn_decl("h", vec![], vec![rreactive_stmt(outer_call, 2)], 1);
    let module = ritems(vec![f]);
    let mut parser = Parser::new(&module);
    let graph = parser.parse_module().expect("graph builds");
    let id = graph.root.children[0];
    let scope = graph.arena.slots[id].as_ref().unwrap();
    assert_eq!(
        scope.reactive_statements[0].signals,
        vec!["y".to_string(), "x".to_string()]
    );
}

// Identifier parameters are seeded into a retained function scope.
#[test]
fn params_are_recorded() {
    let f = rfn_decl(
        "form",
        vec![Pat::Ident("user".to_string()), Pat::Other],
        vec![rreactive_stmt(
            rcall(rident("save", 2), vec![rident("user", 2)], 2),
            2,
        )],
        1,
    );
    let module = ritems(vec![f]);
    let mut parser = Parser::new(&module);
    let graph = parser.parse_module().expect("graph builds");
    let id = graph.root.children[0];
    let scope = graph.arena.slots[id].as_ref().unwrap();
    assert_eq!(scope.params, vec!["user".to_string()]);
}
