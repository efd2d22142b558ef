//! Structural parser/validator: carves the top-level item sequence of a
//! module into pass-through declarations, at most one `server` block, at most
//! one `client` block, and exactly one markup root, collecting structural
//! errors along the way.
//!
//! Collected errors are recoverable and reported together; the absence of a
//! markup root is terminal (`Fatal`), since nothing useful can be emitted
//! without one.
use vstd::prelude::*;
use vstd::string::StrSliceExecFns;
use vstd::string::StringExecFns;

use crate::ast::{
    Expr, ExprKind, JSXClosingElement, JSXElement, JSXElementChild, JSXElementName, JSXExpr,
    JSXExprContainer, JSXOpeningElement, JSXText, LineSpan, Module, ModuleDecl, ModuleItem, Pat,
    Stmt, StmtKind, VarDeclarator,
};

verus! {

/// A structural error found while scanning the top-level items. These are
/// collected, not fatal: the scan continues so one run reports as many
/// problems as possible.
#[derive(Clone, Debug, PartialEq)]
#[non_exhaustive]
pub enum Error {
    UnexpectedLabeledStatement(String),
    LabeledServerIsNotBlock,
    LabeledClientIsNotBlock,
    MoreThanOneJSXRoot,
    UnexpectedTopLevelStatement,
    ServerFunctionRedeclared(String),
}

/// The human-readable message for each structural error.
pub open spec fn spec_msg(e: Error) -> Seq<char> {
    match e {
        Error::UnexpectedLabeledStatement(word) => word@ + " is not a valid labeled block"@,
        Error::LabeledServerIsNotBlock => "the server label is not for a block statement"@,
        Error::LabeledClientIsNotBlock => "the client label is not for a block statement"@,
        Error::MoreThanOneJSXRoot => "only one JSX root permitted per file"@,
        Error::UnexpectedTopLevelStatement => "unexpected top level statement"@,
        Error::ServerFunctionRedeclared(word) => "server functions can only be declared once, "@
            + word@ + " has multiple declarations"@,
    }
}

impl Error {
    pub fn msg(&self) -> (r: String)
        ensures
            r@ == spec_msg(*self),
    {
        match self {
            Error::UnexpectedLabeledStatement(word) => {
                word.clone().concat(" is not a valid labeled block")
            },
            Error::LabeledServerIsNotBlock => {
                "the server label is not for a block statement".to_owned()
            },
            Error::LabeledClientIsNotBlock => {
                "the client label is not for a block statement".to_owned()
            },
            Error::MoreThanOneJSXRoot => "only one JSX root permitted per file".to_owned(),
            Error::UnexpectedTopLevelStatement => "unexpected top level statement".to_owned(),
            Error::ServerFunctionRedeclared(word) => {
                "server functions can only be declared once, ".to_owned().concat(
                    word.as_str(),
                ).concat(" has multiple declarations")
            },
        }
    }
}

/// A terminal failure: a condition after which continuing the compilation is
/// meaningless. Distinct from the collected `Error`s, which are reported
/// together while the run goes on.
#[derive(Clone, Debug, PartialEq)]
pub enum Fatal {
    /// No top-level expression statement held a markup element.
    MissingMarkupRoot,
    /// The scope-stack invariant of the reactive graph builder broke: the
    /// stack ended empty. A builder bug, not a user error.
    ScopeStackEmpty,
    /// The scope-stack invariant broke: more than one scope remained.
    ScopeStackUnbalanced,
    /// A reactive statement's body was not a single expression statement,
    /// the only supported shape.
    ReactiveBodyNotExpression,
}

/// The message for each terminal failure.
pub open spec fn spec_fatal_msg(f: Fatal) -> Seq<char> {
    match f {
        Fatal::MissingMarkupRoot => "no markup root was found in this file"@,
        Fatal::ScopeStackEmpty => "unexpected: scope stack is empty"@,
        Fatal::ScopeStackUnbalanced => "unexpected: scope stack has more than one scope"@,
        Fatal::ReactiveBodyNotExpression => {
            "only expression statements are supported in reactive statement"@
        },
    }
}

impl Fatal {
    pub fn msg(&self) -> (r: String)
        ensures
            r@ == spec_fatal_msg(*self),
    {
        match self {
            Fatal::MissingMarkupRoot => "no markup root was found in this file".to_owned(),
            Fatal::ScopeStackEmpty => "unexpected: scope stack is empty".to_owned(),
            Fatal::ScopeStackUnbalanced => {
                "unexpected: scope stack has more than one scope".to_owned()
            },
            Fatal::ReactiveBodyNotExpression => {
                "only expression statements are supported in reactive statement".to_owned()
            },
        }
    }
}

/// Metadata recorded for one server function declaration.
#[derive(Clone, Copy, Debug, PartialEq, Eq, Structural)]
pub struct FunctionDeclaration {
    pub is_async: bool,
}

/// Looks `name` up in an association list of function declarations; the
/// entry's key decides, by text.
pub open spec fn spec_lookup(
    fns: Seq<(String, FunctionDeclaration)>,
    name: Seq<char>,
) -> Option<FunctionDeclaration>
    decreases fns.len(),
{
    if fns.len() == 0 {
        None
    } else if fns.first().0@ == name {
        Some(fns.first().1)
    } else {
        spec_lookup(fns.drop_first(), name)
    }
}

/// True iff some entry's key reads `name`.
pub open spec fn spec_has_name(fns: Seq<(String, FunctionDeclaration)>, name: Seq<char>) -> bool {
    exists|i: int| 0 <= i < fns.len() && #[trigger] fns[i].0@ == name
}

/// The keys of the association list are pairwise distinct.
pub open spec fn spec_unique_names(fns: Seq<(String, FunctionDeclaration)>) -> bool {
    forall|i: int, j: int|
        0 <= i < j < fns.len() ==> #[trigger] fns[i].0@ != #[trigger] fns[j].0@
}

/// Law: the lookup and the membership test agree — a declaration is found
/// under a name exactly when some entry carries that name.
pub proof fn lemma_lookup_some(fns: Seq<(String, FunctionDeclaration)>, name: Seq<char>)
    ensures
        spec_lookup(fns, name) is Some <==> spec_has_name(fns, name),
    decreases fns.len(),
{
    if fns.len() == 0 {
    } else if fns.first().0@ == name {
        assert(fns[0].0@ == name);
    } else {
        lemma_lookup_some(fns.drop_first(), name);
        if spec_has_name(fns, name) {
            let i = choose|i: int| 0 <= i < fns.len() && #[trigger] fns[i].0@ == name;
            assert(fns.drop_first()[i - 1].0@ == name);
        }
        if spec_has_name(fns.drop_first(), name) {
            let i = choose|i: int|
                0 <= i < fns.drop_first().len() && #[trigger] fns.drop_first()[i].0@ == name;
            assert(fns[i + 1].0@ == name);
        }
    }
}

/// The server block: its statements, kept verbatim for emission, and the
/// function declarations scanned out of it.
#[derive(Debug)]
pub struct BoomerServerBlock {
    pub block: Vec<Stmt>,
    pub function_declarations: Vec<(String, FunctionDeclaration)>,
}

impl BoomerServerBlock {
    pub fn contains_function_declaration(&self, ident: &String) -> (r: bool)
        ensures
            r == spec_has_name(self.function_declarations@, ident@),
    {
        let mut i: usize = 0;
        while i < self.function_declarations.len()
            invariant
                0 <= i <= self.function_declarations.len(),
                forall|j: int|
                    0 <= j < i ==> #[trigger] self.function_declarations@[j].0@ != ident@,
            decreases self.function_declarations.len() - i,
        {
            if self.function_declarations[i].0 == *ident {
                return true;
            }
            i = i + 1;
        }
        false
    }

    pub fn get_function_declaration(&self, ident: &String) -> (r: Option<&FunctionDeclaration>)
        ensures
            match r {
                Some(fd) => spec_lookup(self.function_declarations@, ident@) == Some(*fd),
                None => spec_lookup(self.function_declarations@, ident@) is None,
            },
    {
        let mut i: usize = 0;
        proof {
            assert(self.function_declarations@.skip(0) =~= self.function_declarations@);
        }
        while i < self.function_declarations.len()
            invariant
                0 <= i <= self.function_declarations.len(),
                spec_lookup(self.function_declarations@, ident@) == spec_lookup(
                    self.function_declarations@.skip(i as int),
                    ident@,
                ),
            decreases self.function_declarations.len() - i,
        {
            proof {
                assert(self.function_declarations@.skip(i as int).first()
                    == self.function_declarations@[i as int]);
                assert(self.function_declarations@.skip(i as int).drop_first()
                    =~= self.function_declarations@.skip(i + 1));
            }
            if self.function_declarations[i].0 == *ident {
                return Some(&self.function_declarations[i].1);
            }
            i = i + 1;
        }
        proof {
            assert(self.function_declarations@.skip(self.function_declarations@.len() as int).len()
                == 0);
        }
        None
    }
}

/// The reactive state pairs declared in the client block: the names bound as
/// getters and as setters, in declaration order.
#[derive(Clone, Debug, PartialEq)]
pub struct UseState {
    pub get: Vec<String>,
    pub set: Vec<String>,
}

/// The client block: its statements and the reactive state pairs scanned out
/// of it.
#[derive(Debug)]
pub struct ClientBlock {
    pub block: Vec<Stmt>,
    pub use_state: UseState,
}

/// The parser's whole outcome over a top-level item sequence, folded left to
/// right: pass-through declarations, the first server and client blocks (a
/// later block of the same label is scanned but its statements are dropped),
/// the function declarations and reactive state pairs accumulated by the
/// scans, the first markup root, and every collected error in report order.
pub ghost struct ParseOutcome {
    pub decls: Seq<ModuleDecl>,
    pub server_stmts: Option<Seq<Stmt>>,
    pub fn_decls: Seq<(String, FunctionDeclaration)>,
    pub client_stmts: Option<Seq<Stmt>>,
    pub gets: Seq<String>,
    pub sets: Seq<String>,
    pub jsx: Option<JSXElement>,
    pub errors: Seq<(LineSpan, Error)>,
}

/// The state of the server function-declaration scan: the accumulated name
/// map and the error list it extends.
pub ghost struct ScanFns {
    pub fns: Seq<(String, FunctionDeclaration)>,
    pub errors: Seq<(LineSpan, Error)>,
}

/// The state of the client reactive-state scan: getter and setter names in
/// declaration order.
pub ghost struct ClientScan {
    pub gets: Seq<String>,
    pub sets: Seq<String>,
}

/// Replaces the metadata of the first entry whose key reads like `name`,
/// keeping the stored key; appends a fresh entry if no key matches.
pub open spec fn spec_upsert(
    fns: Seq<(String, FunctionDeclaration)>,
    name: String,
    fd: FunctionDeclaration,
) -> Seq<(String, FunctionDeclaration)>
    decreases fns.len(),
{
    if fns.len() == 0 {
        seq![(name, fd)]
    } else if fns.first().0@ == name@ {
        seq![(fns.first().0, fd)] + fns.drop_first()
    } else {
        seq![fns.first()] + spec_upsert(fns.drop_first(), name, fd)
    }
}

/// One step of the server scan. A function declaration is recorded; a
/// redeclared name is reported once and its metadata updated (last write
/// wins). Blocks and labeled statements are entered; function bodies are not.
pub open spec fn spec_scan_server_stmt(st: ScanFns, s: Stmt) -> ScanFns
    decreases s,
{
    match s.kind {
        StmtKind::FnDecl(f) => {
            if spec_has_name(st.fns, f.ident@) {
                ScanFns {
                    fns: spec_upsert(st.fns, f.ident, FunctionDeclaration { is_async: f.is_async }),
                    errors: st.errors.push((s.span, Error::ServerFunctionRedeclared(f.ident))),
                }
            } else {
                ScanFns {
                    fns: st.fns.push((f.ident, FunctionDeclaration { is_async: f.is_async })),
                    errors: st.errors,
                }
            }
        },
        StmtKind::Block(ss) => spec_scan_server_stmts(st, ss@),
        StmtKind::Labeled(l) => spec_scan_server_stmt(st, *l.body),
        _ => st,
    }
}

/// The server scan folded over a statement sequence.
pub open spec fn spec_scan_server_stmts(st: ScanFns, ss: Seq<Stmt>) -> ScanFns
    decreases ss,
{
    if ss.len() == 0 {
        st
    } else {
        spec_scan_server_stmts(spec_scan_server_stmt(st, ss.first()), ss.drop_first())
    }
}

/// Whether an initializer is a call to the recognized state constructor.
pub open spec fn spec_use_state_call(e: Expr) -> bool {
    match e.kind {
        ExprKind::Call(c) => match (*c.callee).kind {
            ExprKind::Ident(n) => n@ == "useState"@,
            _ => false,
        },
        _ => false,
    }
}

/// One declarator of the client scan: a two-identifier destructuring whose
/// initializer calls the state constructor records a getter and a setter;
/// every other shape is ignored.
pub open spec fn spec_scan_declarator(st: ClientScan, d: VarDeclarator) -> ClientScan {
    match d.name {
        Pat::ArrayTwo(g, s2) => match d.init {
            Some(e) => if spec_use_state_call(*e) {
                ClientScan { gets: st.gets.push(g), sets: st.sets.push(s2) }
            } else {
                st
            },
            None => st,
        },
        _ => st,
    }
}

/// The client scan folded over the declarators of one declaration.
pub open spec fn spec_scan_declarators(
    st: ClientScan,
    ds: Seq<VarDeclarator>,
) -> ClientScan
    decreases ds,
{
    if ds.len() == 0 {
        st
    } else {
        spec_scan_declarators(spec_scan_declarator(st, ds.first()), ds.drop_first())
    }
}

/// One step of the client scan. Variable declarations are examined; blocks
/// and labeled statements are entered; function bodies are not.
pub open spec fn spec_scan_client_stmt(st: ClientScan, s: Stmt) -> ClientScan
    decreases s,
{
    match s.kind {
        StmtKind::VarDecl(ds) => spec_scan_declarators(st, ds@),
        StmtKind::Block(ss) => spec_scan_client_stmts(st, ss@),
        StmtKind::Labeled(l) => spec_scan_client_stmt(st, *l.body),
        _ => st,
    }
}

/// The client scan folded over a statement sequence.
pub open spec fn spec_scan_client_stmts(st: ClientScan, ss: Seq<Stmt>) -> ClientScan
    decreases ss,
{
    if ss.len() == 0 {
        st
    } else {
        spec_scan_client_stmts(spec_scan_client_stmt(st, ss.first()), ss.drop_first())
    }
}

/// One step of the top-level classification, exactly as the scan performs
/// it: declarations pass through; `server` and `client` labels must head a
/// block; any other label is an error; the first markup-root expression
/// statement is kept and later ones reported; every other statement shape,
/// an expression statement without markup included, is an error.
pub open spec fn spec_parse_item(st: ParseOutcome, item: ModuleItem) -> ParseOutcome {
    match item {
        ModuleItem::Decl(d) => ParseOutcome { decls: st.decls.push(d), ..st },
        ModuleItem::Stmt(s) => match s.kind {
            StmtKind::Labeled(l) => {
                if l.label@ == "server"@ {
                    match (*l.body).kind {
                        StmtKind::Block(ss) => {
                            let sc = spec_scan_server_stmts(
                                ScanFns { fns: st.fn_decls, errors: st.errors },
                                ss@,
                            );
                            ParseOutcome {
                                fn_decls: sc.fns,
                                errors: sc.errors,
                                server_stmts: if st.server_stmts is None {
                                    Some(ss@)
                                } else {
                                    st.server_stmts
                                },
                                ..st
                            }
                        },
                        _ => ParseOutcome {
                            errors: st.errors.push((s.span, Error::LabeledServerIsNotBlock)),
                            ..st
                        },
                    }
                } else if l.label@ == "client"@ {
                    match (*l.body).kind {
                        StmtKind::Block(ss) => {
                            let sc = spec_scan_client_stmts(
                                ClientScan { gets: st.gets, sets: st.sets },
                                ss@,
                            );
                            ParseOutcome {
                                gets: sc.gets,
                                sets: sc.sets,
                                client_stmts: if st.client_stmts is None {
                                    Some(ss@)
                                } else {
                                    st.client_stmts
                                },
                                ..st
                            }
                        },
                        _ => ParseOutcome {
                            errors: st.errors.push((s.span, Error::LabeledClientIsNotBlock)),
                            ..st
                        },
                    }
                } else {
                    ParseOutcome {
                        errors: st.errors.push(
                            (l.label_span, Error::UnexpectedLabeledStatement(l.label)),
                        ),
                        ..st
                    }
                }
            },
            StmtKind::Expr(e) => match (*e).kind {
                ExprKind::Element(jsx) => {
                    if st.jsx is Some {
                        ParseOutcome {
                            errors: st.errors.push((s.span, Error::MoreThanOneJSXRoot)),
                            ..st
                        }
                    } else {
                        ParseOutcome { jsx: Some(*jsx), ..st }
                    }
                },
                _ => ParseOutcome {
                    errors: st.errors.push((s.span, Error::UnexpectedTopLevelStatement)),
                    ..st
                },
            },
            _ => ParseOutcome {
                errors: st.errors.push((s.span, Error::UnexpectedTopLevelStatement)),
                ..st
            },
        },
    }
}

/// The classification folded over an item sequence.
pub open spec fn spec_parse_items(st: ParseOutcome, items: Seq<ModuleItem>) -> ParseOutcome
    decreases items,
{
    if items.len() == 0 {
        st
    } else {
        spec_parse_items(spec_parse_item(st, items.first()), items.drop_first())
    }
}

/// The state before any item was seen.
pub open spec fn spec_empty_outcome() -> ParseOutcome {
    ParseOutcome {
        decls: Seq::empty(),
        server_stmts: None,
        fn_decls: Seq::empty(),
        client_stmts: None,
        gets: Seq::empty(),
        sets: Seq::empty(),
        jsx: None,
        errors: Seq::empty(),
    }
}

/// The outcome the parser owes for a given module: the fold started from the
/// empty state.
pub open spec fn spec_parse(items: Seq<ModuleItem>) -> ParseOutcome {
    spec_parse_items(spec_empty_outcome(), items)
}

/// Whether `char::is_lowercase` holds of `c`: the Unicode `Lowercase`
/// property, named here because spelling it out would take pages.
pub uninterp spec fn lowercase_char(c: char) -> bool;

/// Relies on char::is_lowercase: true iff the character has the Unicode
/// `Lowercase` property; among ASCII letters, exactly 'a' to 'z', and no
/// other ASCII character has it.
#[verifier::external_body]
fn char_is_lowercase(c: char) -> (r: bool)
    ensures
        r == lowercase_char(c),
        ('a' as u32) <= (c as u32) && (c as u32) <= ('z' as u32) ==> r,
        (c as u32) < 0x80 && !(('a' as u32) <= (c as u32) && (c as u32) <= ('z' as u32)) ==> !r,
{
    c.is_lowercase()
}

/// The classification rule for markup tags: a tag is a native element iff its
/// name is a plain identifier whose first character is lowercase.
pub open spec fn spec_is_html(el: JSXElement) -> bool {
    match el.opening.name {
        JSXElementName::Ident(id) => id@.len() > 0 && lowercase_char(id@[0]),
        _ => false,
    }
}

impl JSXElement {
    /// A native element: compiled (lowered) by this system.
    pub fn is_html(&self) -> (r: bool)
        ensures
            r == spec_is_html(*self),
    {
        match &self.opening.name {
            JSXElementName::Ident(id) => {
                let s = id.as_str();
                if s.unicode_len() == 0 {
                    false
                } else {
                    char_is_lowercase(s.get_char(0))
                }
            },
            _ => false,
        }
    }

    /// A component: an opaque reference, not lowered here.
    pub fn is_component(&self) -> (r: bool)
        ensures
            r == !spec_is_html(*self),
    {
        !self.is_html()
    }
}

/// A markup element classified by tag casing as a native element.
#[derive(Debug)]
pub struct HTMLElement {
    pub span: LineSpan,
    pub opening: JSXOpeningElement,
    pub children: Vec<Child>,
    pub closing: Option<JSXClosingElement>,
}

/// A markup element classified by tag casing as a component.
#[derive(Debug)]
pub struct Component {
    pub span: LineSpan,
    pub opening: JSXOpeningElement,
    pub children: Vec<Child>,
    pub closing: Option<JSXClosingElement>,
}

/// An embedded host expression kept with its source position.
#[derive(Debug)]
pub struct Expression {
    pub span: LineSpan,
    pub expr: JSXExpr,
}

/// A classified markup node.
#[derive(Debug)]
pub enum Node {
    HTMLElement(HTMLElement),
    Component(Component),
    NotHandledYet,
}

/// A classified child of a markup element.
#[derive(Debug)]
pub enum Child {
    Text(JSXText),
    Expression(Expression),
    HTMLElement(Box<HTMLElement>),
    Component(Box<Component>),
    NotHandledYet,
}

/// The markup tree with every element classified.
#[derive(Debug)]
pub struct BoomerMarkup {
    pub root: Node,
}

/// `r` is the classification of the markup element `n`: a native element or
/// a component, same span, opening, closing, and pointwise classified
/// children.
pub open spec fn spec_node_ok(n: JSXElement, r: Node) -> bool
    decreases n,
{
    match r {
        Node::HTMLElement(h) => spec_is_html(n) && h.span == n.span && h.opening == n.opening
            && h.closing == n.closing && spec_children_ok(n.children@, h.children@),
        Node::Component(c) => !spec_is_html(n) && c.span == n.span && c.opening == n.opening
            && c.closing == n.closing && spec_children_ok(n.children@, c.children@),
        Node::NotHandledYet => false,
    }
}

/// `rs` classifies `ns` pointwise, in document order.
pub open spec fn spec_children_ok(ns: Seq<JSXElementChild>, rs: Seq<Child>) -> bool
    decreases ns,
{
    rs.len() == ns.len() && forall|i: int|
        0 <= i < ns.len() ==> spec_child_ok(#[trigger] ns[i], rs[i])
}

/// `r` is the classification of the child `n`. Text and embedded expressions
/// carry over; a child element is classified like any element; spread
/// children are not handled.
pub open spec fn spec_child_ok(n: JSXElementChild, r: Child) -> bool
    decreases n,
{
    match n {
        JSXElementChild::Text(text) => r == Child::Text(text),
        JSXElementChild::Element(el) => match r {
            Child::HTMLElement(h) => spec_node_ok(*el, Node::HTMLElement(*h)),
            Child::Component(c) => spec_node_ok(*el, Node::Component(*c)),
            _ => false,
        },
        JSXElementChild::ExprContainer(e) => r == Child::Expression(
            Expression { span: e.span, expr: e.expr },
        ),
        _ => r == Child::NotHandledYet,
    }
}

/// Turns one markup tree into its classified form.
pub struct BoomerMarkupTransformer;

impl BoomerMarkupTransformer {
    pub fn parse_boomer_markup(&mut self, root: JSXElement) -> (r: BoomerMarkup)
        ensures
            spec_node_ok(root, r.root),
    {
        let parsed_root = self.parse_jsx_element(root);
        BoomerMarkup { root: parsed_root }
    }

    fn parse_jsx_element(&mut self, n: JSXElement) -> (r: Node)
        ensures
            spec_node_ok(n, r),
        decreases n,
    {
        if n.is_html() {
            Node::HTMLElement(
                HTMLElement {
                    span: n.span,
                    opening: n.opening,
                    children: self.parse_jsx_element_children(n.children),
                    closing: n.closing,
                },
            )
        } else {
            Node::Component(
                Component {
                    span: n.span,
                    opening: n.opening,
                    children: self.parse_jsx_element_children(n.children),
                    closing: n.closing,
                },
            )
        }
    }

    fn parse_jsx_expr_container(&mut self, n: JSXExprContainer) -> (r: Child)
        ensures
            r == Child::Expression(Expression { span: n.span, expr: n.expr }),
    {
        Child::Expression(Expression { span: n.span, expr: n.expr })
    }

    fn parse_jsx_element_children(&mut self, n: Vec<JSXElementChild>) -> (r: Vec<Child>)
        ensures
            spec_children_ok(n@, r@),
        decreases n,
    {
        let mut out: Vec<Child> = Vec::new();
        let mut rest = n;
        let ghost all = rest@;
        let mut i: usize = 0;
        proof {
            vstd::std_specs::vec::axiom_spec_len(&rest);
        }
        while rest.len() > 0
            invariant
                all == n@,
                all.len() <= usize::MAX,
                all.len() - i == rest.len(),
                0 <= i <= all.len(),
                rest@ =~= all.skip(i as int),
                out@.len() == i,
                forall|j: int| 0 <= j < i ==> spec_child_ok(#[trigger] all[j], out@[j]),
            decreases rest.len(),
        {
            proof {
                assert(i < all.len());
            }
            let child = rest.remove(0);
            proof {
                broadcast use vstd::seq::axiom_seq_index_decreases;

                assert(all == n@);
                assert(all.skip(i as int)[0] == all[i as int]);
                assert(child == all.skip(i as int)[0]);
                assert(child == n@[i as int]);
                assert(rest@ =~= all.skip(i + 1));
                assert(decreases_to!(n => n@));
                assert(decreases_to!(n@ => n@[i as int]));
                assert(decreases_to!(n => child));
            }
            let c = self.parse_jsx_element_child(child);
            out.push(c);
            i = i + 1;
        }
        out
    }

    fn parse_jsx_element_child(&mut self, n: JSXElementChild) -> (r: Child)
        ensures
            spec_child_ok(n, r),
        decreases n,
    {
        match n {
            JSXElementChild::Text(text) => Child::Text(text),
            JSXElementChild::Element(el) => match self.parse_jsx_element(*el) {
                Node::Component(c) => Child::Component(Box::new(c)),
                Node::HTMLElement(h) => Child::HTMLElement(Box::new(h)),
                _ => Child::NotHandledYet,
            },
            JSXElementChild::ExprContainer(expr) => self.parse_jsx_expr_container(expr),
            _ => Child::NotHandledYet,
        }
    }
}

proof fn lemma_scan_server_snoc(st: ScanFns, ss: Seq<Stmt>, x: Stmt)
    ensures
        spec_scan_server_stmts(st, ss.push(x)) == spec_scan_server_stmt(
            spec_scan_server_stmts(st, ss),
            x,
        ),
    decreases ss.len(),
{
    reveal_with_fuel(spec_scan_server_stmts, 3);
    if ss.len() == 0 {
        assert(ss.push(x).first() == x);
        assert(ss.push(x).drop_first() =~= Seq::<Stmt>::empty());
    } else {
        assert(ss.push(x).first() == ss.first());
        assert(ss.push(x).drop_first() =~= ss.drop_first().push(x));
        lemma_scan_server_snoc(spec_scan_server_stmt(st, ss.first()), ss.drop_first(), x);
    }
}

proof fn lemma_scan_declarators_snoc(st: ClientScan, ds: Seq<VarDeclarator>, x: VarDeclarator)
    ensures
        spec_scan_declarators(st, ds.push(x)) == spec_scan_declarator(
            spec_scan_declarators(st, ds),
            x,
        ),
    decreases ds.len(),
{
    reveal_with_fuel(spec_scan_declarators, 3);
    if ds.len() == 0 {
        assert(ds.push(x).first() == x);
        assert(ds.push(x).drop_first() =~= Seq::<VarDeclarator>::empty());
    } else {
        assert(ds.push(x).first() == ds.first());
        assert(ds.push(x).drop_first() =~= ds.drop_first().push(x));
        lemma_scan_declarators_snoc(spec_scan_declarator(st, ds.first()), ds.drop_first(), x);
    }
}

proof fn lemma_scan_client_snoc(st: ClientScan, ss: Seq<Stmt>, x: Stmt)
    ensures
        spec_scan_client_stmts(st, ss.push(x)) == spec_scan_client_stmt(
            spec_scan_client_stmts(st, ss),
            x,
        ),
    decreases ss.len(),
{
    reveal_with_fuel(spec_scan_client_stmts, 3);
    if ss.len() == 0 {
        assert(ss.push(x).first() == x);
        assert(ss.push(x).drop_first() =~= Seq::<Stmt>::empty());
    } else {
        assert(ss.push(x).first() == ss.first());
        assert(ss.push(x).drop_first() =~= ss.drop_first().push(x));
        lemma_scan_client_snoc(spec_scan_client_stmt(st, ss.first()), ss.drop_first(), x);
    }
}

proof fn lemma_parse_items_snoc(st: ParseOutcome, items: Seq<ModuleItem>, x: ModuleItem)
    ensures
        spec_parse_items(st, items.push(x)) == spec_parse_item(spec_parse_items(st, items), x),
    decreases items.len(),
{
    reveal_with_fuel(spec_parse_items, 3);
    if items.len() == 0 {
        assert(items.push(x).first() == x);
        assert(items.push(x).drop_first() =~= Seq::<ModuleItem>::empty());
    } else {
        assert(items.push(x).first() == items.first());
        assert(items.push(x).drop_first() =~= items.drop_first().push(x));
        lemma_parse_items_snoc(spec_parse_item(st, items.first()), items.drop_first(), x);
    }
}

/// The index of the first entry whose key reads `name`, if any.
fn find_fn_decl(fns: &Vec<(String, FunctionDeclaration)>, name: &String) -> (r: Option<usize>)
    ensures
        match r {
            Some(i) => i < fns@.len() && fns@[i as int].0@ == name@ && forall|j: int|
                0 <= j < i ==> #[trigger] fns@[j].0@ != name@,
            None => !spec_has_name(fns@, name@),
        },
{
    let mut i: usize = 0;
    while i < fns.len()
        invariant
            0 <= i <= fns.len(),
            forall|j: int| 0 <= j < i ==> #[trigger] fns@[j].0@ != name@,
        decreases fns.len() - i,
    {
        if fns[i].0 == *name {
            return Some(i);
        }
        i = i + 1;
    }
    None
}

proof fn lemma_upsert_at(
    fns: Seq<(String, FunctionDeclaration)>,
    name: String,
    fd: FunctionDeclaration,
    i: int,
)
    requires
        0 <= i < fns.len(),
        fns[i].0@ == name@,
        forall|j: int| 0 <= j < i ==> #[trigger] fns[j].0@ != name@,
    ensures
        spec_upsert(fns, name, fd) == fns.update(i, (fns[i].0, fd)),
    decreases i,
{
    if i == 0 {
        assert(spec_upsert(fns, name, fd) =~= fns.update(0, (fns[0].0, fd)));
    } else {
        assert forall|j: int| 0 <= j < i - 1 implies #[trigger] fns.drop_first()[j].0@
            != name@ by {
            assert(fns.drop_first()[j] == fns[j + 1]);
        }
        lemma_upsert_at(fns.drop_first(), name, fd, i - 1);
        assert(fns.drop_first()[i - 1] == fns[i]);
        assert(seq![fns.first()] + fns.drop_first().update(i - 1, (fns[i].0, fd)) =~= fns.update(
            i,
            (fns[i].0, fd),
        ));
    }
}

/// The server function-declaration scan over one statement.
fn scan_server_stmt(
    fns: &mut Vec<(String, FunctionDeclaration)>,
    errors: &mut Vec<(LineSpan, Error)>,
    s: &Stmt,
)
    ensures
        (ScanFns { fns: final(fns)@, errors: final(errors)@ }) == spec_scan_server_stmt(
            ScanFns { fns: old(fns)@, errors: old(errors)@ },
            *s,
        ),
    decreases *s,
{
    match &s.kind {
        StmtKind::FnDecl(f) => {
            let fd = FunctionDeclaration { is_async: f.is_async };
            match find_fn_decl(fns, &f.ident) {
                Some(i) => {
                    proof {
                        lemma_upsert_at(fns@, f.ident, fd, i as int);
                        assert(fns@[i as int].0@ == f.ident@);
                        assert(spec_has_name(fns@, f.ident@));
                    }
                    let key = fns[i].0.clone();
                    let ghost fns0 = fns@;
                    fns.set(i, (key, fd));
                    proof {
                        assert(fns@ =~= spec_upsert(fns0, f.ident, fd));
                    }
                    errors.push((s.span, Error::ServerFunctionRedeclared(f.ident.clone())));
                },
                None => {
                    fns.push((f.ident.clone(), fd));
                },
            }
        },
        StmtKind::Block(ss) => {
            scan_server_stmts(fns, errors, ss);
        },
        StmtKind::Labeled(l) => {
            scan_server_stmt(fns, errors, &l.body);
        },
        _ => {},
    }
}

/// The server function-declaration scan over a statement sequence.
fn scan_server_stmts(
    fns: &mut Vec<(String, FunctionDeclaration)>,
    errors: &mut Vec<(LineSpan, Error)>,
    ss: &Vec<Stmt>,
)
    ensures
        (ScanFns { fns: final(fns)@, errors: final(errors)@ }) == spec_scan_server_stmts(
            ScanFns { fns: old(fns)@, errors: old(errors)@ },
            ss@,
        ),
    decreases *ss,
{
    let ghost st0 = ScanFns { fns: fns@, errors: errors@ };
    let mut i: usize = 0;
    proof {
        assert(ss@.take(0) =~= Seq::<Stmt>::empty());
    }
    while i < ss.len()
        invariant
            0 <= i <= ss@.len(),
            (ScanFns { fns: fns@, errors: errors@ }) == spec_scan_server_stmts(
                st0,
                ss@.take(i as int),
            ),
        decreases ss@.len() - i,
    {
        proof {
            assert(decreases_to!(ss => ss@));
            assert(decreases_to!(ss@ => ss@[i as int]));
        }
        scan_server_stmt(fns, errors, &ss[i]);
        proof {
            assert(ss@.take(i + 1).drop_last() =~= ss@.take(i as int));
            assert(ss@.take(i + 1).last() == ss@[i as int]);
            lemma_scan_server_snoc(st0, ss@.take(i as int), ss@[i as int]);
            assert(ss@.take(i + 1) =~= ss@.take(i as int).push(ss@[i as int]));
        }
        i = i + 1;
    }
    proof {
        assert(ss@.take(ss@.len() as int) =~= ss@);
    }
}

/// Whether a declarator's initializer calls the recognized state
/// constructor.
fn is_use_state_init(init: &Option<Box<Expr>>) -> (r: bool)
    ensures
        match init {
            Some(e) => r == spec_use_state_call(**e),
            None => !r,
        },
{
    match init {
        Some(e) => match &e.kind {
            ExprKind::Call(c) => match &c.callee.kind {
                ExprKind::Ident(n) => crate::ast::str_is(n, "useState"),
                _ => false,
            },
            _ => false,
        },
        None => false,
    }
}

/// The client reactive-state scan over one statement.
fn scan_client_stmt(gets: &mut Vec<String>, sets: &mut Vec<String>, s: &Stmt)
    ensures
        (ClientScan { gets: final(gets)@, sets: final(sets)@ }) == spec_scan_client_stmt(
            ClientScan { gets: old(gets)@, sets: old(sets)@ },
            *s,
        ),
    decreases *s,
{
    match &s.kind {
        StmtKind::VarDecl(ds) => {
            let ghost st0 = ClientScan { gets: gets@, sets: sets@ };
            let mut i: usize = 0;
            proof {
                assert(ds@.take(0) =~= Seq::<VarDeclarator>::empty());
            }
            while i < ds.len()
                invariant
                    0 <= i <= ds@.len(),
                    (ClientScan { gets: gets@, sets: sets@ }) == spec_scan_declarators(
                        st0,
                        ds@.take(i as int),
                    ),
                decreases ds@.len() - i,
            {
                let d = &ds[i];
                if is_use_state_init(&d.init) {
                    match &d.name {
                        Pat::ArrayTwo(g, s2) => {
                            gets.push(g.clone());
                            sets.push(s2.clone());
                        },
                        _ => {},
                    }
                }
                proof {
                    assert(ds@.take(i + 1).drop_last() =~= ds@.take(i as int));
                    assert(ds@.take(i + 1).last() == ds@[i as int]);
                    lemma_scan_declarators_snoc(st0, ds@.take(i as int), ds@[i as int]);
                    assert(ds@.take(i + 1) =~= ds@.take(i as int).push(ds@[i as int]));
                }
                i = i + 1;
            }
            proof {
                assert(ds@.take(ds@.len() as int) =~= ds@);
            }
        },
        StmtKind::Block(ss) => {
            scan_client_stmts(gets, sets, ss);
        },
        StmtKind::Labeled(l) => {
            scan_client_stmt(gets, sets, &l.body);
        },
        _ => {},
    }
}

/// The client reactive-state scan over a statement sequence.
fn scan_client_stmts(gets: &mut Vec<String>, sets: &mut Vec<String>, ss: &Vec<Stmt>)
    ensures
        (ClientScan { gets: final(gets)@, sets: final(sets)@ }) == spec_scan_client_stmts(
            ClientScan { gets: old(gets)@, sets: old(sets)@ },
            ss@,
        ),
    decreases *ss,
{
    let ghost st0 = ClientScan { gets: gets@, sets: sets@ };
    let mut i: usize = 0;
    proof {
        assert(ss@.take(0) =~= Seq::<Stmt>::empty());
    }
    while i < ss.len()
        invariant
            0 <= i <= ss@.len(),
            (ClientScan { gets: gets@, sets: sets@ }) == spec_scan_client_stmts(
                st0,
                ss@.take(i as int),
            ),
        decreases ss@.len() - i,
    {
        proof {
            assert(decreases_to!(ss => ss@));
            assert(decreases_to!(ss@ => ss@[i as int]));
        }
        scan_client_stmt(gets, sets, &ss[i]);
        proof {
            assert(ss@.take(i + 1).drop_last() =~= ss@.take(i as int));
            assert(ss@.take(i + 1).last() == ss@[i as int]);
            lemma_scan_client_snoc(st0, ss@.take(i as int), ss@[i as int]);
            assert(ss@.take(i + 1) =~= ss@.take(i as int).push(ss@[i as int]));
        }
        i = i + 1;
    }
    proof {
        assert(ss@.take(ss@.len() as int) =~= ss@);
    }
}

/// The parser's typed output: pass-through declarations in order, the server
/// and client blocks if present, and the markup root.
#[derive(Debug)]
pub struct ParseResult {
    pub declarations: Vec<ModuleDecl>,
    pub server: Option<BoomerServerBlock>,
    pub client: Option<ClientBlock>,
    pub jsx: Option<JSXElement>,
    pub markup: Option<Node>,
}

/// An exact copy of a structural error.
fn clone_error(e: &Error) -> (r: Error)
    ensures
        r == *e,
{
    match e {
        Error::UnexpectedLabeledStatement(word) => Error::UnexpectedLabeledStatement(word.clone()),
        Error::LabeledServerIsNotBlock => Error::LabeledServerIsNotBlock,
        Error::LabeledClientIsNotBlock => Error::LabeledClientIsNotBlock,
        Error::MoreThanOneJSXRoot => Error::MoreThanOneJSXRoot,
        Error::UnexpectedTopLevelStatement => Error::UnexpectedTopLevelStatement,
        Error::ServerFunctionRedeclared(word) => Error::ServerFunctionRedeclared(word.clone()),
    }
}

/// The structural parser. It collects recoverable errors as it scans; they
/// stay readable through `take_errors` whether or not the scan ends in a
/// terminal failure.
pub struct Parser {
    pub errors: Vec<(LineSpan, Error)>,
}

impl Parser {
    pub fn new() -> (r: Parser)
        ensures
            r.errors@ == Seq::<(LineSpan, Error)>::empty(),
    {
        Parser { errors: Vec::new() }
    }

    /// A copy of every error collected so far, in report order.
    pub fn take_errors(&self) -> (r: Vec<(LineSpan, Error)>)
        ensures
            r@ == self.errors@,
    {
        let mut out: Vec<(LineSpan, Error)> = Vec::new();
        let mut i: usize = 0;
        while i < self.errors.len()
            invariant
                0 <= i <= self.errors@.len(),
                out@ =~= self.errors@.take(i as int),
            decreases self.errors@.len() - i,
        {
            let e = clone_error(&self.errors[i].1);
            out.push((self.errors[i].0, e));
            proof {
                assert(out@ =~= self.errors@.take(i + 1));
            }
            i = i + 1;
        }
        proof {
            assert(self.errors@.take(self.errors@.len() as int) =~= self.errors@);
        }
        out
    }

    /// Classifies the top-level items of `module`, collecting structural
    /// errors, and returns the typed result; fails terminally when no markup
    /// root was found, with every collected error still recorded.
    pub fn parse(&mut self, module: Module) -> (r: Result<ParseResult, Fatal>)
        ensures
            ({
                let o = spec_parse(module.items@);
                &&& final(self).errors@ == old(self).errors@ + o.errors
                &&& (r is Ok <==> o.jsx is Some)
                &&& match r {
                    Ok(res) => {
                        &&& res.declarations@ == o.decls
                        &&& match res.server {
                            Some(sb) => o.server_stmts == Some(sb.block@)
                                && sb.function_declarations@ == o.fn_decls,
                            None => o.server_stmts is None,
                        }
                        &&& match res.client {
                            Some(cb) => o.client_stmts == Some(cb.block@) && cb.use_state.get@
                                == o.gets && cb.use_state.set@ == o.sets,
                            None => o.client_stmts is None,
                        }
                        &&& res.jsx == o.jsx
                        &&& res.markup is None
                    },
                    Err(f) => f == Fatal::MissingMarkupRoot,
                }
            }),
    {
        let mut decls: Vec<ModuleDecl> = Vec::new();
        let mut server_stmts: Option<Vec<Stmt>> = None;
        let mut fns: Vec<(String, FunctionDeclaration)> = Vec::new();
        let mut client_stmts: Option<Vec<Stmt>> = None;
        let mut gets: Vec<String> = Vec::new();
        let mut sets: Vec<String> = Vec::new();
        let mut jsx: Option<JSXElement> = None;
        let mut errs: Vec<(LineSpan, Error)> = Vec::new();

        let mut items = module.items;
        let ghost all = items@;
        let mut i: usize = 0;
        proof {
            vstd::std_specs::vec::axiom_spec_len(&items);
            assert(all.take(0) =~= Seq::<ModuleItem>::empty());
        }
        while items.len() > 0
            invariant
                all == module.items@,
                all.len() <= usize::MAX,
                0 <= i <= all.len(),
                all.len() - i == items.len(),
                items@ =~= all.skip(i as int),
                ({
                    let cur = spec_parse(all.take(i as int));
                    &&& cur.decls == decls@
                    &&& match server_stmts {
                        Some(v) => cur.server_stmts == Some(v@),
                        None => cur.server_stmts is None,
                    }
                    &&& cur.fn_decls == fns@
                    &&& match client_stmts {
                        Some(v) => cur.client_stmts == Some(v@),
                        None => cur.client_stmts is None,
                    }
                    &&& cur.gets == gets@
                    &&& cur.sets == sets@
                    &&& cur.jsx == jsx
                    &&& cur.errors == errs@
                    &&& self.errors@ == old(self).errors@
                }),
            decreases items.len(),
        {
            let ghost pre = spec_parse(all.take(i as int));
            let item = items.remove(0);
            proof {
                assert(all.skip(i as int)[0] == all[i as int]);
                assert(item == all[i as int]);
                assert(items@ =~= all.skip(i + 1));
                assert(all.take(i + 1) =~= all.take(i as int).push(all[i as int]));
                lemma_parse_items_snoc(spec_empty_outcome(), all.take(i as int), all[i as int]);
            }
            match item {
                ModuleItem::Decl(d) => {
                    decls.push(d);
                },
                ModuleItem::Stmt(s) => {
                    let span = s.span;
                    match s.kind {
                        StmtKind::Labeled(l) => {
                            if crate::ast::str_is(&l.label, "server") {
                                let body = *l.body;
                                match body.kind {
                                    StmtKind::Block(ss) => {
                                        scan_server_stmts(&mut fns, &mut errs, &ss);
                                        if server_stmts.is_none() {
                                            server_stmts = Some(ss);
                                        }
                                    },
                                    _ => {
                                        errs.push((span, Error::LabeledServerIsNotBlock));
                                    },
                                }
                            } else if crate::ast::str_is(&l.label, "client") {
                                let body = *l.body;
                                match body.kind {
                                    StmtKind::Block(ss) => {
                                        scan_client_stmts(&mut gets, &mut sets, &ss);
                                        if client_stmts.is_none() {
                                            client_stmts = Some(ss);
                                        }
                                    },
                                    _ => {
                                        errs.push((span, Error::LabeledClientIsNotBlock));
                                    },
                                }
                            } else {
                                errs.push(
                                    (l.label_span, Error::UnexpectedLabeledStatement(l.label)),
                                );
                            }
                        },
                        StmtKind::Expr(e) => {
                            let ex = *e;
                            match ex.kind {
                                ExprKind::Element(jsx_box) => {
                                    if jsx.is_some() {
                                        errs.push((span, Error::MoreThanOneJSXRoot));
                                    } else {
                                        jsx = Some(*jsx_box);
                                    }
                                },
                                _ => {
                                    errs.push((span, Error::UnexpectedTopLevelStatement));
                                },
                            }
                        },
                        _ => {
                            errs.push((span, Error::UnexpectedTopLevelStatement));
                        },
                    }
                },
            }
            i = i + 1;
        }
        proof {
            assert(all.take(all.len() as int) =~= all);
        }
        self.errors.append(&mut errs);

        let result = ParseResult {
            declarations: decls,
            server: match server_stmts {
                Some(b) => Some(
                    BoomerServerBlock { block: b, function_declarations: fns },
                ),
                None => None,
            },
            client: match client_stmts {
                Some(b) => Some(
                    ClientBlock { block: b, use_state: UseState { get: gets, set: sets } },
                ),
                None => None,
            },
            jsx,
            markup: None,
        };

        if result.jsx.is_some() {
            Ok(result)
        } else {
            Err(Fatal::MissingMarkupRoot)
        }
    }
}

/// A top-level item that is a markup-root expression statement.
pub open spec fn spec_is_jsx_root_item(item: ModuleItem) -> bool {
    match item {
        ModuleItem::Stmt(s) => match s.kind {
            StmtKind::Expr(e) => (*e).kind is Element,
            _ => false,
        },
        _ => false,
    }
}

/// How many markup-root expression statements the items hold.
pub open spec fn spec_count_jsx_roots(items: Seq<ModuleItem>) -> nat
    decreases items,
{
    if items.len() == 0 {
        0
    } else {
        spec_count_jsx_roots(items.drop_last()) + (if spec_is_jsx_root_item(items.last()) {
            1nat
        } else {
            0nat
        })
    }
}

/// The markup element of the first markup-root expression statement, if any.
pub open spec fn spec_first_jsx(items: Seq<ModuleItem>) -> Option<JSXElement>
    decreases items,
{
    if items.len() == 0 {
        None
    } else {
        match spec_first_jsx(items.drop_last()) {
            Some(el) => Some(el),
            None => {
                if spec_is_jsx_root_item(items.last()) {
                    match items.last() {
                        ModuleItem::Stmt(s) => match s.kind {
                            StmtKind::Expr(e) => match (*e).kind {
                                ExprKind::Element(jsx) => Some(*jsx),
                                _ => None,
                            },
                            _ => None,
                        },
                        _ => None,
                    }
                } else {
                    None
                }
            },
        }
    }
}

/// How many of the collected errors report a second markup root.
pub open spec fn spec_count_jsx_errors(errs: Seq<(LineSpan, Error)>) -> nat
    decreases errs,
{
    if errs.len() == 0 {
        0
    } else {
        spec_count_jsx_errors(errs.drop_last()) + (if errs.last().1 is MoreThanOneJSXRoot {
            1nat
        } else {
            0nat
        })
    }
}

proof fn lemma_count_jsx_errors_push(errs: Seq<(LineSpan, Error)>, x: (LineSpan, Error))
    ensures
        spec_count_jsx_errors(errs.push(x)) == spec_count_jsx_errors(errs) + (
        if x.1 is MoreThanOneJSXRoot {
            1nat
        } else {
            0nat
        }),
{
    assert(errs.push(x).drop_last() =~= errs);
    assert(errs.push(x).last() == x);
}

proof fn lemma_scan_server_stmt_jsx_count(st: ScanFns, s: Stmt)
    ensures
        spec_count_jsx_errors(spec_scan_server_stmt(st, s).errors) == spec_count_jsx_errors(
            st.errors,
        ),
    decreases s,
{
    match s.kind {
        StmtKind::FnDecl(f) => {
            if spec_has_name(st.fns, f.ident@) {
                lemma_count_jsx_errors_push(
                    st.errors,
                    (s.span, Error::ServerFunctionRedeclared(f.ident)),
                );
            }
        },
        StmtKind::Block(ss) => {
            lemma_scan_server_stmts_jsx_count(st, ss@);
        },
        StmtKind::Labeled(l) => {
            lemma_scan_server_stmt_jsx_count(st, *l.body);
        },
        _ => {},
    }
}

proof fn lemma_scan_server_stmts_jsx_count(st: ScanFns, ss: Seq<Stmt>)
    ensures
        spec_count_jsx_errors(spec_scan_server_stmts(st, ss).errors) == spec_count_jsx_errors(
            st.errors,
        ),
    decreases ss,
{
    if ss.len() == 0 {
    } else {
        lemma_scan_server_stmt_jsx_count(st, ss.first());
        lemma_scan_server_stmts_jsx_count(spec_scan_server_stmt(st, ss.first()), ss.drop_first());
    }
}

proof fn lemma_p1_aux(st: ParseOutcome, items: Seq<ModuleItem>)
    ensures
        ({
            let r = spec_parse_items(st, items);
            &&& (r.jsx is Some <==> st.jsx is Some || spec_count_jsx_roots(items) > 0)
            &&& r.jsx == (if st.jsx is Some {
                st.jsx
            } else {
                spec_first_jsx(items)
            })
            &&& spec_count_jsx_errors(r.errors) == spec_count_jsx_errors(st.errors) + (
            if st.jsx is Some {
                spec_count_jsx_roots(items)
            } else if spec_count_jsx_roots(items) > 0 {
                (spec_count_jsx_roots(items) - 1) as nat
            } else {
                0nat
            })
        }),
    decreases items.len(),
{
    if items.len() == 0 {
    } else {
        lemma_p1_aux(st, items.drop_last());
        let mid = spec_parse_items(st, items.drop_last());
        let x = items.last();
        lemma_parse_items_snoc(st, items.drop_last(), x);
        assert(items.drop_last().push(x) =~= items);
        assert(spec_parse_items(st, items) == spec_parse_item(mid, x));
        match x {
            ModuleItem::Decl(_) => {},
            ModuleItem::Stmt(s) => {
                match s.kind {
                    StmtKind::Labeled(l) => {
                        if l.label@ == "server"@ {
                            match (*l.body).kind {
                                StmtKind::Block(ss) => {
                                    lemma_scan_server_stmts_jsx_count(
                                        ScanFns { fns: mid.fn_decls, errors: mid.errors },
                                        ss@,
                                    );
                                },
                                _ => {
                                    lemma_count_jsx_errors_push(
                                        mid.errors,
                                        (s.span, Error::LabeledServerIsNotBlock),
                                    );
                                },
                            }
                        } else if l.label@ == "client"@ {
                            match (*l.body).kind {
                                StmtKind::Block(_) => {},
                                _ => {
                                    lemma_count_jsx_errors_push(
                                        mid.errors,
                                        (s.span, Error::LabeledClientIsNotBlock),
                                    );
                                },
                            }
                        } else {
                            lemma_count_jsx_errors_push(
                                mid.errors,
                                (l.label_span, Error::UnexpectedLabeledStatement(l.label)),
                            );
                        }
                    },
                    StmtKind::Expr(e) => {
                        match (*e).kind {
                            ExprKind::Element(_) => {
                                if mid.jsx is Some {
                                    lemma_count_jsx_errors_push(
                                        mid.errors,
                                        (s.span, Error::MoreThanOneJSXRoot),
                                    );
                                }
                            },
                            _ => {
                                lemma_count_jsx_errors_push(
                                    mid.errors,
                                    (s.span, Error::UnexpectedTopLevelStatement),
                                );
                            },
                        }
                    },
                    _ => {
                        lemma_count_jsx_errors_push(
                            mid.errors,
                            (s.span, Error::UnexpectedTopLevelStatement),
                        );
                    },
                }
            },
        }
    }
}

/// Law: single markup root. Parsing finds a markup root exactly when some
/// top-level expression statement holds a markup element; the root kept is
/// the first one encountered; and each later one is reported by exactly one
/// error, so an input with two markup roots yields exactly one such error.
pub proof fn lemma_single_markup_root(items: Seq<ModuleItem>)
    ensures
        spec_parse(items).jsx is Some <==> spec_count_jsx_roots(items) > 0,
        spec_parse(items).jsx == spec_first_jsx(items),
        spec_count_jsx_errors(spec_parse(items).errors) == (if spec_count_jsx_roots(items) > 0 {
            (spec_count_jsx_roots(items) - 1) as nat
        } else {
            0nat
        }),
{
    lemma_p1_aux(spec_empty_outcome(), items);
}

/// A top-level labeled statement whose label is neither `server` nor
/// `client`.
pub open spec fn spec_is_other_label_item(item: ModuleItem) -> bool {
    match item {
        ModuleItem::Stmt(s) => match s.kind {
            StmtKind::Labeled(l) => l.label@ != "server"@ && l.label@ != "client"@,
            _ => false,
        },
        _ => false,
    }
}

/// The error owed for a mislabeled statement: the label's own span and its
/// exact text.
pub open spec fn spec_other_label_error(item: ModuleItem) -> (LineSpan, Error) {
    match item {
        ModuleItem::Stmt(s) => match s.kind {
            StmtKind::Labeled(l) => (l.label_span, Error::UnexpectedLabeledStatement(l.label)),
            _ => (LineSpan { lo_line: 0, hi_line: 0 }, Error::UnexpectedTopLevelStatement),
        },
        _ => (LineSpan { lo_line: 0, hi_line: 0 }, Error::UnexpectedTopLevelStatement),
    }
}

/// A top-level `server` label heading a block.
pub open spec fn spec_is_server_block_item(item: ModuleItem) -> bool {
    match item {
        ModuleItem::Stmt(s) => match s.kind {
            StmtKind::Labeled(l) => l.label@ == "server"@ && (*l.body).kind is Block,
            _ => false,
        },
        _ => false,
    }
}

/// A top-level `client` label heading a block.
pub open spec fn spec_is_client_block_item(item: ModuleItem) -> bool {
    match item {
        ModuleItem::Stmt(s) => match s.kind {
            StmtKind::Labeled(l) => l.label@ == "client"@ && (*l.body).kind is Block,
            _ => false,
        },
        _ => false,
    }
}

/// `e2` begins with `e1`: errors are only ever appended.
pub open spec fn spec_errors_extend(e1: Seq<(LineSpan, Error)>, e2: Seq<(LineSpan, Error)>) -> bool {
    e2.len() >= e1.len() && e2.take(e1.len() as int) == e1
}

/// The pair stands somewhere in the collected errors.
pub open spec fn spec_in_errors(errs: Seq<(LineSpan, Error)>, p: (LineSpan, Error)) -> bool {
    exists|j: int| 0 <= j < errs.len() && errs[j] == p
}

proof fn lemma_extend_push(e: Seq<(LineSpan, Error)>, x: (LineSpan, Error))
    ensures
        spec_errors_extend(e, e.push(x)),
{
    assert(e.push(x).take(e.len() as int) =~= e);
}

proof fn lemma_extend_trans(
    a: Seq<(LineSpan, Error)>,
    b: Seq<(LineSpan, Error)>,
    c: Seq<(LineSpan, Error)>,
)
    requires
        spec_errors_extend(a, b),
        spec_errors_extend(b, c),
    ensures
        spec_errors_extend(a, c),
{
    assert(c.take(a.len() as int) =~= b.take(a.len() as int));
}

proof fn lemma_extend_in(e1: Seq<(LineSpan, Error)>, e2: Seq<(LineSpan, Error)>, p: (LineSpan, Error))
    requires
        spec_errors_extend(e1, e2),
        spec_in_errors(e1, p),
    ensures
        spec_in_errors(e2, p),
{
    let j = choose|j: int| 0 <= j < e1.len() && e1[j] == p;
    assert(e2.take(e1.len() as int)[j] == e2[j]);
}

proof fn lemma_scan_server_stmt_extends(st: ScanFns, s: Stmt)
    ensures
        spec_errors_extend(st.errors, spec_scan_server_stmt(st, s).errors),
    decreases s,
{
    match s.kind {
        StmtKind::FnDecl(f) => {
            if spec_has_name(st.fns, f.ident@) {
                lemma_extend_push(st.errors, (s.span, Error::ServerFunctionRedeclared(f.ident)));
            } else {
                assert(st.errors.take(st.errors.len() as int) =~= st.errors);
            }
        },
        StmtKind::Block(ss) => {
            lemma_scan_server_stmts_extends(st, ss@);
        },
        StmtKind::Labeled(l) => {
            lemma_scan_server_stmt_extends(st, *l.body);
        },
        _ => {
            assert(st.errors.take(st.errors.len() as int) =~= st.errors);
        },
    }
}

proof fn lemma_scan_server_stmts_extends(st: ScanFns, ss: Seq<Stmt>)
    ensures
        spec_errors_extend(st.errors, spec_scan_server_stmts(st, ss).errors),
    decreases ss,
{
    if ss.len() == 0 {
        assert(st.errors.take(st.errors.len() as int) =~= st.errors);
    } else {
        lemma_scan_server_stmt_extends(st, ss.first());
        let st1 = spec_scan_server_stmt(st, ss.first());
        lemma_scan_server_stmts_extends(st1, ss.drop_first());
        lemma_extend_trans(st.errors, st1.errors, spec_scan_server_stmts(st1, ss.drop_first()).errors);
    }
}

proof fn lemma_parse_item_extends(st: ParseOutcome, x: ModuleItem)
    ensures
        spec_errors_extend(st.errors, spec_parse_item(st, x).errors),
{
    assert(st.errors.take(st.errors.len() as int) =~= st.errors);
    match x {
        ModuleItem::Decl(_) => {},
        ModuleItem::Stmt(s) => {
            match s.kind {
                StmtKind::Labeled(l) => {
                    if l.label@ == "server"@ {
                        match (*l.body).kind {
                            StmtKind::Block(ss) => {
                                lemma_scan_server_stmts_extends(
                                    ScanFns { fns: st.fn_decls, errors: st.errors },
                                    ss@,
                                );
                            },
                            _ => {
                                lemma_extend_push(st.errors, (s.span, Error::LabeledServerIsNotBlock));
                            },
                        }
                    } else if l.label@ == "client"@ {
                        match (*l.body).kind {
                            StmtKind::Block(_) => {},
                            _ => {
                                lemma_extend_push(st.errors, (s.span, Error::LabeledClientIsNotBlock));
                            },
                        }
                    } else {
                        lemma_extend_push(
                            st.errors,
                            (l.label_span, Error::UnexpectedLabeledStatement(l.label)),
                        );
                    }
                },
                StmtKind::Expr(e) => {
                    match (*e).kind {
                        ExprKind::Element(_) => {
                            if st.jsx is Some {
                                lemma_extend_push(st.errors, (s.span, Error::MoreThanOneJSXRoot));
                            }
                        },
                        _ => {
                            lemma_extend_push(
                                st.errors,
                                (s.span, Error::UnexpectedTopLevelStatement),
                            );
                        },
                    }
                },
                _ => {
                    lemma_extend_push(st.errors, (s.span, Error::UnexpectedTopLevelStatement));
                },
            }
        },
    }
}

proof fn lemma_p2_aux(st: ParseOutcome, items: Seq<ModuleItem>)
    ensures
        ({
            let r = spec_parse_items(st, items);
            &&& spec_errors_extend(st.errors, r.errors)
            &&& (r.server_stmts is Some <==> st.server_stmts is Some || exists|i: int|
                0 <= i < items.len() && spec_is_server_block_item(#[trigger] items[i]))
            &&& (r.client_stmts is Some <==> st.client_stmts is Some || exists|i: int|
                0 <= i < items.len() && spec_is_client_block_item(#[trigger] items[i]))
            &&& forall|i: int|
                0 <= i < items.len() && spec_is_other_label_item(#[trigger] items[i])
                    ==> spec_in_errors(r.errors, spec_other_label_error(items[i]))
        }),
    decreases items.len(),
{
    assert("server"@ != "client"@) by {
        reveal_strlit("server");
        reveal_strlit("client");
        assert("server"@[0] == 's');
        assert("client"@[0] == 'c');
    }
    if items.len() == 0 {
        assert(st.errors.take(st.errors.len() as int) =~= st.errors);
    } else {
        lemma_p2_aux(st, items.drop_last());
        let mid = spec_parse_items(st, items.drop_last());
        let x = items.last();
        lemma_parse_items_snoc(st, items.drop_last(), x);
        assert(items.drop_last().push(x) =~= items);
        let r = spec_parse_item(mid, x);
        assert(spec_parse_items(st, items) == r);
        lemma_parse_item_extends(mid, x);
        lemma_extend_trans(st.errors, mid.errors, r.errors);

        assert forall|i: int|
            0 <= i < items.len() && spec_is_other_label_item(#[trigger] items[i]) implies
            spec_in_errors(r.errors, spec_other_label_error(items[i])) by {
            if i < items.len() - 1 {
                assert(items.drop_last()[i] == items[i]);
                lemma_extend_in(mid.errors, r.errors, spec_other_label_error(items[i]));
            } else {
                match x {
                    ModuleItem::Stmt(s) => {
                        match s.kind {
                            StmtKind::Labeled(l) => {
                                let p = (l.label_span, Error::UnexpectedLabeledStatement(l.label));
                                assert(r.errors == mid.errors.push(p));
                                assert(r.errors[mid.errors.len() as int] == p);
                            },
                            _ => {},
                        }
                    },
                    _ => {},
                }
            }
        }

        assert(r.server_stmts is Some <==> st.server_stmts is Some || exists|i: int|
            0 <= i < items.len() && spec_is_server_block_item(#[trigger] items[i])) by {
            if spec_is_server_block_item(x) {
                assert(spec_is_server_block_item(items[items.len() - 1]));
            }
            if exists|i: int|
                0 <= i < items.len() && spec_is_server_block_item(#[trigger] items[i]) {
                let i = choose|i: int|
                    0 <= i < items.len() && spec_is_server_block_item(#[trigger] items[i]);
                if i < items.len() - 1 {
                    assert(items.drop_last()[i] == items[i]);
                }
            }
            if exists|i: int|
                0 <= i < items.drop_last().len() && spec_is_server_block_item(
                    #[trigger] items.drop_last()[i],
                ) {
                let i = choose|i: int|
                    0 <= i < items.drop_last().len() && spec_is_server_block_item(
                        #[trigger] items.drop_last()[i],
                    );
                assert(items[i] == items.drop_last()[i]);
            }
        }

        assert(r.client_stmts is Some <==> st.client_stmts is Some || exists|i: int|
            0 <= i < items.len() && spec_is_client_block_item(#[trigger] items[i])) by {
            if spec_is_client_block_item(x) {
                assert(spec_is_client_block_item(items[items.len() - 1]));
            }
            if exists|i: int|
                0 <= i < items.len() && spec_is_client_block_item(#[trigger] items[i]) {
                let i = choose|i: int|
                    0 <= i < items.len() && spec_is_client_block_item(#[trigger] items[i]);
                if i < items.len() - 1 {
                    assert(items.drop_last()[i] == items[i]);
                }
            }
            if exists|i: int|
                0 <= i < items.drop_last().len() && spec_is_client_block_item(
                    #[trigger] items.drop_last()[i],
                ) {
                let i = choose|i: int|
                    0 <= i < items.drop_last().len() && spec_is_client_block_item(
                        #[trigger] items.drop_last()[i],
                    );
                assert(items[i] == items.drop_last()[i]);
            }
        }
    }
}

/// Law: label exclusivity. A top-level label other than `server` or
/// `client` always yields an `UnexpectedLabeledStatement` error carrying
/// that exact label text, and the server and client blocks are populated
/// exactly when a block-bodied statement with their label stands among the
/// items.
pub proof fn lemma_label_exclusivity(items: Seq<ModuleItem>)
    ensures
        forall|i: int|
            0 <= i < items.len() && spec_is_other_label_item(#[trigger] items[i])
                ==> spec_in_errors(spec_parse(items).errors, spec_other_label_error(items[i])),
        spec_parse(items).server_stmts is Some <==> exists|i: int|
            0 <= i < items.len() && spec_is_server_block_item(#[trigger] items[i]),
        spec_parse(items).client_stmts is Some <==> exists|i: int|
            0 <= i < items.len() && spec_is_client_block_item(#[trigger] items[i]),
{
    lemma_p2_aux(spec_empty_outcome(), items);
}

proof fn lemma_upsert_unique(
    fns: Seq<(String, FunctionDeclaration)>,
    name: String,
    fd: FunctionDeclaration,
)
    requires
        spec_unique_names(fns),
    ensures
        spec_unique_names(spec_upsert(fns, name, fd)),
        forall|nm: Seq<char>|
            #[trigger] spec_has_name(spec_upsert(fns, name, fd), nm) <==> spec_has_name(fns, nm)
                || nm == name@,
    decreases fns.len(),
{
    let r = spec_upsert(fns, name, fd);
    if fns.len() == 0 {
        assert forall|nm: Seq<char>| #[trigger] spec_has_name(r, nm) implies spec_has_name(
            fns,
            nm,
        ) || nm == name@ by {
            let i = choose|i: int| 0 <= i < r.len() && #[trigger] r[i].0@ == nm;
            assert(r[0].0@ == name@);
        }
        assert(spec_has_name(r, name@)) by {
            assert(r[0].0@ == name@);
        }
    } else if fns.first().0@ == name@ {
        assert forall|i: int, j: int| 0 <= i < j < r.len() implies #[trigger] r[i].0@
            != #[trigger] r[j].0@ by {
            assert(r[i].0@ == fns[i].0@);
            assert(r[j].0@ == fns[j].0@);
        }
        assert forall|nm: Seq<char>| #[trigger] spec_has_name(r, nm) implies spec_has_name(
            fns,
            nm,
        ) || nm == name@ by {
            let i = choose|i: int| 0 <= i < r.len() && #[trigger] r[i].0@ == nm;
            assert(fns[i].0@ == nm);
        }
        assert forall|nm: Seq<char>|
            spec_has_name(fns, nm) || nm == name@ implies #[trigger] spec_has_name(r, nm) by {
            if spec_has_name(fns, nm) {
                let i = choose|i: int| 0 <= i < fns.len() && #[trigger] fns[i].0@ == nm;
                assert(r[i].0@ == nm);
            } else {
                assert(r[0].0@ == name@);
            }
        }
    } else {
        assert(spec_unique_names(fns.drop_first())) by {
            assert forall|i: int, j: int| 0 <= i < j < fns.drop_first().len() implies #[trigger]
                fns.drop_first()[i].0@ != #[trigger] fns.drop_first()[j].0@ by {
                assert(fns.drop_first()[i] == fns[i + 1]);
                assert(fns.drop_first()[j] == fns[j + 1]);
            }
        }
        lemma_upsert_unique(fns.drop_first(), name, fd);
        let rr = spec_upsert(fns.drop_first(), name, fd);
        assert(r =~= seq![fns.first()] + rr);
        assert forall|i: int, j: int| 0 <= i < j < r.len() implies #[trigger] r[i].0@
            != #[trigger] r[j].0@ by {
            if i == 0 {
                assert(spec_has_name(rr, r[j].0@)) by {
                    assert(rr[j - 1].0@ == r[j].0@);
                }
                if !spec_has_name(fns.drop_first(), r[j].0@) {
                    assert(r[j].0@ == name@);
                }
                if spec_has_name(fns.drop_first(), r[j].0@) {
                    let k = choose|k: int|
                        0 <= k < fns.drop_first().len() && #[trigger] fns.drop_first()[k].0@
                            == r[j].0@;
                    assert(fns[k + 1].0@ == r[j].0@);
                }
            } else {
                assert(r[i].0@ == rr[i - 1].0@);
                assert(r[j].0@ == rr[j - 1].0@);
            }
        }
        assert forall|nm: Seq<char>| #[trigger] spec_has_name(r, nm) implies spec_has_name(
            fns,
            nm,
        ) || nm == name@ by {
            let i = choose|i: int| 0 <= i < r.len() && #[trigger] r[i].0@ == nm;
            if i == 0 {
                assert(fns[0].0@ == nm);
            } else {
                assert(spec_has_name(rr, nm)) by {
                    assert(rr[i - 1].0@ == nm);
                }
                if spec_has_name(fns.drop_first(), nm) {
                    let k = choose|k: int|
                        0 <= k < fns.drop_first().len() && #[trigger] fns.drop_first()[k].0@ == nm;
                    assert(fns[k + 1].0@ == nm);
                }
            }
        }
        assert forall|nm: Seq<char>|
            spec_has_name(fns, nm) || nm == name@ implies #[trigger] spec_has_name(r, nm) by {
            if spec_has_name(fns, nm) {
                let i = choose|i: int| 0 <= i < fns.len() && #[trigger] fns[i].0@ == nm;
                if i == 0 {
                    assert(r[0].0@ == nm);
                } else {
                    assert(spec_has_name(fns.drop_first(), nm)) by {
                        assert(fns.drop_first()[i - 1].0@ == nm);
                    }
                    assert(spec_has_name(rr, nm));
                    let k = choose|k: int| 0 <= k < rr.len() && #[trigger] rr[k].0@ == nm;
                    assert(r[k + 1].0@ == nm);
                }
            } else {
                assert(spec_has_name(rr, nm));
                let k = choose|k: int| 0 <= k < rr.len() && #[trigger] rr[k].0@ == nm;
                assert(r[k + 1].0@ == nm);
            }
        }
    }
}

proof fn lemma_scan_server_stmt_unique(st: ScanFns, s: Stmt)
    requires
        spec_unique_names(st.fns),
    ensures
        spec_unique_names(spec_scan_server_stmt(st, s).fns),
    decreases s,
{
    match s.kind {
        StmtKind::FnDecl(f) => {
            if spec_has_name(st.fns, f.ident@) {
                lemma_upsert_unique(st.fns, f.ident, FunctionDeclaration { is_async: f.is_async });
            } else {
                let r = st.fns.push((f.ident, FunctionDeclaration { is_async: f.is_async }));
                assert forall|i: int, j: int| 0 <= i < j < r.len() implies #[trigger] r[i].0@
                    != #[trigger] r[j].0@ by {
                    if j < st.fns.len() {
                        assert(r[i] == st.fns[i]);
                        assert(r[j] == st.fns[j]);
                        assert(st.fns[i].0@ != st.fns[j].0@);
                    } else {
                        assert(r[i] == st.fns[i]);
                        assert(r[j].0@ == f.ident@);
                        assert(st.fns[i].0@ != f.ident@) by {
                            if st.fns[i].0@ == f.ident@ {
                                assert(spec_has_name(st.fns, f.ident@));
                            }
                        }
                    }
                }
            }
        },
        StmtKind::Block(ss) => {
            lemma_scan_server_stmts_unique(st, ss@);
        },
        StmtKind::Labeled(l) => {
            lemma_scan_server_stmt_unique(st, *l.body);
        },
        _ => {},
    }
}

proof fn lemma_scan_server_stmts_unique(st: ScanFns, ss: Seq<Stmt>)
    requires
        spec_unique_names(st.fns),
    ensures
        spec_unique_names(spec_scan_server_stmts(st, ss).fns),
    decreases ss,
{
    if ss.len() == 0 {
    } else {
        lemma_scan_server_stmt_unique(st, ss.first());
        lemma_scan_server_stmts_unique(spec_scan_server_stmt(st, ss.first()), ss.drop_first());
    }
}

proof fn lemma_parse_items_unique(st: ParseOutcome, items: Seq<ModuleItem>)
    requires
        spec_unique_names(st.fn_decls),
    ensures
        spec_unique_names(spec_parse_items(st, items).fn_decls),
    decreases items.len(),
{
    if items.len() == 0 {
    } else {
        lemma_parse_items_unique(st, items.drop_last());
        let mid = spec_parse_items(st, items.drop_last());
        let x = items.last();
        lemma_parse_items_snoc(st, items.drop_last(), x);
        assert(items.drop_last().push(x) =~= items);
        match x {
            ModuleItem::Stmt(s) => {
                match s.kind {
                    StmtKind::Labeled(l) => {
                        if l.label@ == "server"@ {
                            match (*l.body).kind {
                                StmtKind::Block(ss) => {
                                    lemma_scan_server_stmts_unique(
                                        ScanFns { fns: mid.fn_decls, errors: mid.errors },
                                        ss@,
                                    );
                                },
                                _ => {},
                            }
                        }
                    },
                    _ => {},
                }
            },
            _ => {},
        }
    }
}

/// Law: the scanned function declarations form a map — their names are
/// pairwise distinct, however many declarations and redeclarations the
/// server blocks held.
pub proof fn lemma_server_functions_unique(items: Seq<ModuleItem>)
    ensures
        spec_unique_names(spec_parse(items).fn_decls),
{
    lemma_parse_items_unique(spec_empty_outcome(), items);
}

} // verus!
