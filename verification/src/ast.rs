//! Data model of the generic statement/expression tree that the scripting
//! frontend hands to the compiler.
//!
//! The frontend (an external parser for the host scripting language) reports,
//! for every node, the source lines its text spans; the emitter's formatting
//! decisions are driven by those line numbers. Non-markup expressions and
//! pass-through statements also carry `code`, the text the external
//! pretty-printer produces for them, so that emission never has to call back
//! into the frontend.
use vstd::prelude::*;

verus! {

/// Source position of a node: the line its text starts on and the line it
/// ends on, as reported by the frontend.
#[derive(Clone, Copy, Debug, PartialEq, Eq, Structural)]
pub struct LineSpan {
    pub lo_line: usize,
    pub hi_line: usize,
}

impl LineSpan {
    pub fn new(lo_line: usize, hi_line: usize) -> (r: LineSpan)
        ensures
            r == (LineSpan { lo_line, hi_line }),
    {
        LineSpan { lo_line, hi_line }
    }

    /// A span for synthesized nodes that have no source position.
    pub fn dummy() -> (r: LineSpan)
        ensures
            r == (LineSpan { lo_line: 0, hi_line: 0 }),
    {
        LineSpan { lo_line: 0, hi_line: 0 }
    }
}

/// Compares a string against an expected text.
pub fn str_is(a: &String, lit: &str) -> (r: bool)
    ensures
        r == (a@ == lit@),
{
    let s: String = lit.to_owned();
    *a == s
}

/// True iff some entry of `v` reads like `s`.
pub open spec fn spec_contains_str(v: Seq<String>, s: Seq<char>) -> bool {
    exists|i: int| 0 <= i < v.len() && #[trigger] v[i]@ == s
}

/// Whether any entry of `v` reads like `s`.
pub fn contains_str(v: &Vec<String>, s: &String) -> (r: bool)
    ensures
        r == spec_contains_str(v@, s@),
{
    let mut i: usize = 0;
    while i < v.len()
        invariant
            0 <= i <= v@.len(),
            forall|j: int| 0 <= j < i ==> #[trigger] v@[j]@ != s@,
        decreases v@.len() - i,
    {
        if v[i] == *s {
            return true;
        }
        i = i + 1;
    }
    false
}

/// A dotted tag path such as `A.B.C`: all segments but the last, then the
/// final property name.
#[derive(Clone, Debug, PartialEq)]
pub struct JSXMemberExpr {
    pub obj: Vec<String>,
    pub prop: String,
}

/// A namespaced tag name such as `svg:path`.
#[derive(Clone, Debug, PartialEq)]
pub struct JSXNamespacedName {
    pub ns: String,
    pub name: String,
}

/// The name of a markup tag.
#[derive(Clone, Debug, PartialEq)]
pub enum JSXElementName {
    Ident(String),
    Member(JSXMemberExpr),
    Namespaced(JSXNamespacedName),
}

/// A text child of a markup element.
#[derive(Clone, Debug, PartialEq)]
pub struct JSXText {
    pub span: LineSpan,
    pub value: String,
}

/// The `{ ... }` form embedding a host expression in markup.
#[derive(Debug)]
pub struct JSXExprContainer {
    pub span: LineSpan,
    pub expr: JSXExpr,
}

/// What stands between the braces of an expression container.
#[derive(Debug)]
pub enum JSXExpr {
    Empty,
    Expr(Box<Expr>),
}

/// A `{...expr}` spread child.
#[derive(Debug)]
pub struct JSXSpreadChild {
    pub span: LineSpan,
    pub expr: Box<Expr>,
}

/// The value of a named attribute.
#[derive(Debug)]
pub enum JSXAttrValue {
    /// A literal value; `text` is the pretty-printer's text for it.
    Lit { span: LineSpan, text: String },
    Container(JSXExprContainer),
}

/// The name of a named attribute.
#[derive(Clone, Debug, PartialEq)]
pub enum JSXAttrName {
    Ident(String),
    Namespaced(JSXNamespacedName),
}

/// A named attribute, `name` or `name=value`.
#[derive(Debug)]
pub struct JSXAttr {
    pub span: LineSpan,
    pub name: JSXAttrName,
    pub value: Option<JSXAttrValue>,
}

/// One entry of an opening tag's attribute list.
#[derive(Debug)]
pub enum JSXAttrOrSpread {
    Attr(JSXAttr),
    Spread { span: LineSpan, expr: Box<Expr> },
}

/// The opening tag of a markup element.
#[derive(Debug)]
pub struct JSXOpeningElement {
    pub span: LineSpan,
    pub name: JSXElementName,
    pub attrs: Vec<JSXAttrOrSpread>,
    pub self_closing: bool,
}

/// The closing tag of a markup element.
#[derive(Clone, Debug, PartialEq)]
pub struct JSXClosingElement {
    pub span: LineSpan,
    pub name: JSXElementName,
}

/// A markup element: opening tag, children in document order, and an
/// optional closing tag (absent on self-closing elements).
#[derive(Debug)]
pub struct JSXElement {
    pub span: LineSpan,
    pub opening: JSXOpeningElement,
    pub children: Vec<JSXElementChild>,
    pub closing: Option<JSXClosingElement>,
}

/// One child of a markup element.
#[derive(Debug)]
pub enum JSXElementChild {
    Text(JSXText),
    ExprContainer(JSXExprContainer),
    Element(Box<JSXElement>),
    Spread(JSXSpreadChild),
}

/// A host expression. `code` is the pretty-printer's text for the whole
/// expression; `kind` exposes the structure the compiler inspects.
#[derive(Debug)]
pub struct Expr {
    pub span: LineSpan,
    pub kind: ExprKind,
    pub code: String,
}

/// The shapes of host expressions the compiler distinguishes. Everything
/// else is carried opaquely as `Other`.
#[derive(Debug)]
pub enum ExprKind {
    Ident(String),
    Call(CallExpr),
    Element(Box<JSXElement>),
    Other,
}

/// A call expression: callee and arguments in order.
#[derive(Debug)]
pub struct CallExpr {
    pub callee: Box<Expr>,
    pub args: Vec<Expr>,
}

/// A binding pattern. Only plain identifiers and two-element destructurings
/// of two plain identifiers are distinguished; all else is `Other`.
#[derive(Clone, Debug, PartialEq)]
pub enum Pat {
    Ident(String),
    ArrayTwo(String, String),
    Other,
}

/// One declarator of a variable declaration.
#[derive(Debug)]
pub struct VarDeclarator {
    pub span: LineSpan,
    pub name: Pat,
    pub init: Option<Box<Expr>>,
}

/// A labeled statement, `label: body`.
#[derive(Debug)]
pub struct LabeledStmt {
    pub label: String,
    pub label_span: LineSpan,
    pub body: Box<Stmt>,
}

/// A function declaration with its name, async-ness, parameter patterns and
/// body statements.
#[derive(Debug)]
pub struct FnDecl {
    pub ident: String,
    pub is_async: bool,
    pub params: Vec<Pat>,
    pub body: Vec<Stmt>,
}

/// A statement. `code` is the pretty-printer's text for the whole statement,
/// used when it is passed through to the output unchanged.
#[derive(Debug)]
pub struct Stmt {
    pub span: LineSpan,
    pub kind: StmtKind,
    pub code: String,
}

/// The statement shapes the compiler distinguishes.
#[derive(Debug)]
pub enum StmtKind {
    Block(Vec<Stmt>),
    Labeled(LabeledStmt),
    Expr(Box<Expr>),
    FnDecl(FnDecl),
    VarDecl(Vec<VarDeclarator>),
    Other,
}

/// A module-level declaration (import/export), passed through unchanged.
/// `code` is the pretty-printer's text for it.
#[derive(Clone, Debug, PartialEq)]
pub struct ModuleDecl {
    pub span: LineSpan,
    pub code: String,
}

/// One top-level item of a module.
#[derive(Debug)]
pub enum ModuleItem {
    Decl(ModuleDecl),
    Stmt(Stmt),
}

/// A whole module: the frontend's top-level item sequence.
#[derive(Debug)]
pub struct Module {
    pub items: Vec<ModuleItem>,
}

} // verus!
