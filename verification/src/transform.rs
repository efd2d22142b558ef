//! Markup template compiler: lowers a markup tree into a flat sequence of
//! literal template fragments and dynamic expression slots, and wraps the
//! result in a synthesized exported render function.
//!
//! The lowering is a pure recursive builder over the input tree: native
//! elements (lowercase tags) become a stable three-slot shape of open-tag
//! literal, nested children array and close-tag literal (two slots when
//! self-closing); components (capitalized tags) stay opaque dynamic
//! references and are not expanded.
use vstd::prelude::*;
use vstd::string::StringExecFns;

use crate::ast::{
    Expr, ExprKind, JSXElement, JSXElementChild, JSXElementName, JSXExpr, LineSpan, ModuleDecl,
    Stmt,
};
use crate::parser::{spec_is_html, ClientBlock, ParseResult};

verus! {

/// One slot of a compiled template: a literal string fragment, a dynamic
/// expression reference, a nested sequence for a child element's own
/// template, or a bracketed spread marker.
#[derive(Debug)]
pub enum Slot {
    Lit(String),
    Dyn(Box<Expr>),
    Arr(Vec<Slot>),
    Spread(Box<Expr>),
}

/// A synthesized output declaration: the exported render function whose body
/// returns the compiled template.
#[derive(Debug)]
pub enum OutDecl {
    ExportRenderFn { name: String, body: Vec<Slot> },
}

/// One item of the generated module.
#[derive(Debug)]
pub enum OutItem {
    Decl(ModuleDecl),
    Stmt(Stmt),
    Render(OutDecl),
}

/// The generated module: pass-through declarations, the server block's
/// statements verbatim, and the exported render function.
#[derive(Debug)]
pub struct OutModule {
    pub items: Vec<OutItem>,
}

/// The open-tag literal for a tag name.
pub open spec fn spec_open_tag(tag: Seq<char>) -> Seq<char> {
    "<"@ + tag + ">"@
}

/// The close-tag literal for a tag name.
pub open spec fn spec_close_tag(tag: Seq<char>) -> Seq<char> {
    "</"@ + tag + ">"@
}

/// `s` is the opaque dynamic slot standing for a component element: a
/// reference wrapping the element itself, unexpanded.
pub open spec fn spec_component_slot(el: JSXElement, s: Slot) -> bool {
    match s {
        Slot::Dyn(d) => (*d).span == el.span && (*d).code@ == Seq::<char>::empty() && match (
        *d).kind {
            ExprKind::Element(b) => *b == el,
            _ => false,
        },
        _ => false,
    }
}

/// `slots` is the lowering of the native element `el`: the open-tag literal,
/// one nested array slot holding the children's own slots, and — unless the
/// element is self-closing — the close-tag literal.
pub open spec fn spec_element_slots(el: JSXElement, slots: Seq<Slot>) -> bool
    decreases el,
{
    match el.opening.name {
        JSXElementName::Ident(tag) => {
            &&& (if el.opening.self_closing {
                slots.len() == 2
            } else {
                slots.len() == 3 && (slots[2] matches Slot::Lit(t) && t@ == spec_close_tag(tag@))
            })
            &&& (slots[0] matches Slot::Lit(t) && t@ == spec_open_tag(tag@))
            &&& (slots[1] matches Slot::Arr(v) && spec_children_slots(el.children@, v@))
        },
        _ => false,
    }
}

/// Whether a child yields a slot at all: an empty expression container is
/// the one child that vanishes.
pub open spec fn spec_child_contributes(c: JSXElementChild) -> bool {
    match c {
        JSXElementChild::ExprContainer(ec) => ec.expr is Expr,
        _ => true,
    }
}

/// `out` lowers the children `cs` in document order, one slot per child,
/// skipping children that yield none.
pub open spec fn spec_children_slots(cs: Seq<JSXElementChild>, out: Seq<Slot>) -> bool
    decreases cs,
{
    if cs.len() == 0 {
        out.len() == 0
    } else {
        if spec_child_contributes(cs.last()) {
            out.len() > 0 && spec_children_slots(cs.drop_last(), out.drop_last())
                && spec_child_slot(cs.last(), out.last())
        } else {
            spec_children_slots(cs.drop_last(), out)
        }
    }
}

/// `s` is the lowering of one child: text becomes a literal fragment; a
/// native child element (direct, or wrapped in an expression container)
/// becomes a nested array of its own slots; a component or any other
/// embedded expression becomes a dynamic reference; a spread child becomes a
/// spread marker.
pub open spec fn spec_child_slot(c: JSXElementChild, s: Slot) -> bool
    decreases c,
{
    match c {
        JSXElementChild::Text(t) => s matches Slot::Lit(v) && v@ == t.value@,
        JSXElementChild::Element(el2) => {
            if spec_is_html(*el2) {
                s matches Slot::Arr(v) && spec_element_slots(*el2, v@)
            } else {
                spec_component_slot(*el2, s)
            }
        },
        JSXElementChild::ExprContainer(ec) => match ec.expr {
            JSXExpr::Expr(e) => match (*e).kind {
                ExprKind::Element(inner) => {
                    if spec_is_html(*inner) {
                        s matches Slot::Arr(v) && spec_element_slots(*inner, v@)
                    } else {
                        s matches Slot::Dyn(d) && *d == *e
                    }
                },
                _ => s matches Slot::Dyn(d) && *d == *e,
            },
            JSXExpr::Empty => false,
        },
        JSXElementChild::Spread(sp) => s matches Slot::Spread(d) && *d == *sp.expr,
    }
}

/// `slots` is the render-function body for the markup root: a native root is
/// lowered; a component root stays one opaque reference.
pub open spec fn spec_lower_root(el: JSXElement, slots: Seq<Slot>) -> bool {
    if spec_is_html(el) {
        spec_element_slots(el, slots)
    } else {
        slots.len() == 1 && spec_component_slot(el, slots[0])
    }
}

fn open_tag_lit(tag: &String) -> (r: String)
    ensures
        r@ == spec_open_tag(tag@),
{
    "<".to_owned().concat(tag.as_str()).concat(">")
}

fn close_tag_lit(tag: &String) -> (r: String)
    ensures
        r@ == spec_close_tag(tag@),
{
    "</".to_owned().concat(tag.as_str()).concat(">")
}

/// Lowers one native element into its slot sequence.
fn lower_element(el: JSXElement) -> (r: Vec<Slot>)
    requires
        spec_is_html(el),
    ensures
        spec_element_slots(el, r@),
    decreases el,
{
    let JSXElement { span: _, opening, children, closing: _ } = el;
    let children_slots = lower_children(children);
    match opening.name {
        JSXElementName::Ident(tag) => {
            let mut out: Vec<Slot> = Vec::new();
            out.push(Slot::Lit(open_tag_lit(&tag)));
            out.push(Slot::Arr(children_slots));
            if !opening.self_closing {
                out.push(Slot::Lit(close_tag_lit(&tag)));
            }
            out
        },
        _ => {
            proof {
                assert(false);
            }
            Vec::new()
        },
    }
}

/// Lowers a child list in document order.
fn lower_children(cs: Vec<JSXElementChild>) -> (r: Vec<Slot>)
    ensures
        spec_children_slots(cs@, r@),
    decreases cs,
{
    let mut out: Vec<Slot> = Vec::new();
    let mut rest = cs;
    let ghost all = rest@;
    let mut i: usize = 0;
    proof {
        vstd::std_specs::vec::axiom_spec_len(&rest);
        assert(all.take(0) =~= Seq::<JSXElementChild>::empty());
    }
    while rest.len() > 0
        invariant
            all == cs@,
            all.len() <= usize::MAX,
            0 <= i <= all.len(),
            all.len() - i == rest.len(),
            rest@ =~= all.skip(i as int),
            spec_children_slots(all.take(i as int), out@),
        decreases rest.len(),
    {
        let child = rest.remove(0);
        proof {
            broadcast use vstd::seq::axiom_seq_index_decreases;

            assert(all.skip(i as int)[0] == all[i as int]);
            assert(child == cs@[i as int]);
            assert(rest@ =~= all.skip(i + 1));
            assert(decreases_to!(cs => cs@));
            assert(decreases_to!(cs@ => cs@[i as int]));
            assert(decreases_to!(cs => child));
        }
        let ghost out0 = out@;
        let slot = lower_child(child);
        match slot {
            Some(s) => {
                out.push(s);
            },
            None => {},
        }
        proof {
            assert(all.take(i + 1).drop_last() =~= all.take(i as int));
            assert(all.take(i + 1).last() == all[i as int]);
            if spec_child_contributes(all[i as int]) {
                assert(out@.drop_last() =~= out0);
            }
        }
        i = i + 1;
    }
    proof {
        assert(all.take(all.len() as int) =~= all);
    }
    out
}

/// Lowers the markup root: a native root becomes its slot sequence; a
/// component root stays one opaque dynamic reference.
pub fn lower_root(jsx: JSXElement) -> (r: Vec<Slot>)
    ensures
        spec_lower_root(jsx, r@),
{
    if jsx.is_html() {
        lower_element(jsx)
    } else {
        let span = jsx.span;
        let mut v: Vec<Slot> = Vec::new();
        v.push(
            Slot::Dyn(
                Box::new(Expr { span, kind: ExprKind::Element(Box::new(jsx)), code: String::new() }),
            ),
        );
        v
    }
}

/// Lowers one child; an empty expression container yields nothing.
fn lower_child(c: JSXElementChild) -> (r: Option<Slot>)
    ensures
        match r {
            Some(s) => spec_child_contributes(c) && spec_child_slot(c, s),
            None => !spec_child_contributes(c),
        },
    decreases c,
{
    match c {
        JSXElementChild::Text(t) => Some(Slot::Lit(t.value)),
        JSXElementChild::Element(el2) => {
            if el2.is_html() {
                Some(Slot::Arr(lower_element(*el2)))
            } else {
                let span = el2.span;
                Some(
                    Slot::Dyn(
                        Box::new(Expr { span, kind: ExprKind::Element(el2), code: String::new() }),
                    ),
                )
            }
        },
        JSXElementChild::ExprContainer(ec) => match ec.expr {
            JSXExpr::Expr(e) => {
                let Expr { span, kind, code } = *e;
                match kind {
                    ExprKind::Element(inner) => {
                        if inner.is_html() {
                            Some(Slot::Arr(lower_element(*inner)))
                        } else {
                            Some(
                                Slot::Dyn(
                                    Box::new(
                                        Expr { span, kind: ExprKind::Element(inner), code },
                                    ),
                                ),
                            )
                        }
                    },
                    _ => Some(Slot::Dyn(Box::new(Expr { span, kind, code }))),
                }
            },
            JSXExpr::Empty => None,
        },
        JSXElementChild::Spread(sp) => Some(Slot::Spread(sp.expr)),
    }
}

/// Law: template shape stability and round-trip tag text. Lowering a native
/// element always yields the open-tag literal `<tag>`, one nested
/// children-array slot, and the close-tag literal `</tag>`; a self-closing
/// element yields exactly the first two slots, whatever the children.
pub proof fn lemma_template_shape(el: JSXElement, slots: Seq<Slot>, tag: String)
    requires
        spec_is_html(el),
        spec_element_slots(el, slots),
        el.opening.name == JSXElementName::Ident(tag),
    ensures
        el.opening.self_closing ==> slots.len() == 2,
        !el.opening.self_closing ==> slots.len() == 3 && (slots[2] matches Slot::Lit(t) && t@
            == spec_close_tag(tag@)),
        slots[0] matches Slot::Lit(t) && t@ == spec_open_tag(tag@),
        slots[1] matches Slot::Arr(v) && spec_children_slots(el.children@, v@),
{
}

/// The transformation context while walking markup: whether the walk stands
/// inside an attribute expression or a child expression.
#[derive(Clone, Copy, Debug, PartialEq, Eq, Structural)]
pub struct JSXTransformContext {
    pub in_attribute_expr: bool,
    pub in_child_expr: bool,
}

impl JSXTransformContext {
    /// The context outside any expression.
    pub fn start() -> (r: JSXTransformContext)
        ensures
            !r.in_attribute_expr,
            !r.in_child_expr,
    {
        JSXTransformContext { in_attribute_expr: false, in_child_expr: false }
    }
}

/// The markup-to-template transformer. It keeps the client block at hand to
/// recognize reactive state accessors while lowering.
pub struct JSXTransform<'a> {
    pub ctx: JSXTransformContext,
    pub client_block: &'a Option<ClientBlock>,
}

impl<'a> JSXTransform<'a> {
    pub fn new(client_block: &'a Option<ClientBlock>) -> (r: JSXTransform<'a>)
        ensures
            r.client_block == client_block,
    {
        JSXTransform { ctx: JSXTransformContext::start(), client_block }
    }

    /// Whether `id` names a declared reactive state getter.
    pub fn is_get_state(&self, id: &String) -> (r: bool)
        ensures
            r == match self.client_block {
                Some(cb) => crate::ast::spec_contains_str(cb.use_state.get@, id@),
                None => false,
            },
    {
        match self.client_block {
            Some(block) => crate::ast::contains_str(&block.use_state.get, id),
            None => false,
        }
    }

    /// Whether `id` names a declared reactive state setter.
    pub fn is_set_state(&self, id: &String) -> (r: bool)
        ensures
            r == match self.client_block {
                Some(cb) => crate::ast::spec_contains_str(cb.use_state.set@, id@),
                None => false,
            },
    {
        match self.client_block {
            Some(block) => crate::ast::contains_str(&block.use_state.set, id),
            None => false,
        }
    }

    /// Lowers the markup root and wraps it in the exported render function.
    pub fn transform(&mut self, jsx: JSXElement) -> (r: Vec<OutDecl>)
        ensures
            r.len() == 1,
            r[0] matches OutDecl::ExportRenderFn { name, body } && name@ == "render"@
                && spec_lower_root(jsx, body@),
    {
        let body: Vec<Slot> = lower_root(jsx);
        let mut out: Vec<OutDecl> = Vec::new();
        out.push(OutDecl::ExportRenderFn { name: "render".to_owned(), body });
        out
    }
}

/// The server block's statements pass through unchanged.
pub struct ServerTransform;

impl ServerTransform {
    pub fn transform(server_block: crate::parser::BoomerServerBlock) -> (r: Vec<Stmt>)
        ensures
            r == server_block.block,
    {
        server_block.block
    }
}

/// The whole module transformation: pass-through declarations, the server
/// block's statements verbatim, then the exported render function for the
/// markup root.
pub struct BmrTransform;

impl BmrTransform {
    pub fn transform(parse_result: ParseResult) -> (r: OutModule)
        requires
            parse_result.jsx is Some,
        ensures
            ({
                let n_decls = parse_result.declarations@.len();
                let n_server = match parse_result.server {
                    Some(sb) => sb.block@.len() as int,
                    None => 0int,
                };
                &&& r.items@.len() == n_decls + n_server + 1
                &&& forall|i: int|
                    0 <= i < n_decls ==> #[trigger] r.items@[i] == OutItem::Decl(
                        parse_result.declarations@[i],
                    )
                &&& (match parse_result.server {
                    Some(sb) => forall|i: int|
                        0 <= i < sb.block@.len() ==> #[trigger] r.items@[n_decls + i]
                            == OutItem::Stmt(sb.block@[i]),
                    None => true,
                })
                &&& (r.items@.last() matches OutItem::Render(
                    OutDecl::ExportRenderFn { name, body },
                ) && name@ == "render"@ && spec_lower_root(parse_result.jsx->0, body@))
            }),
    {
        let ParseResult { declarations, server, client, jsx, markup: _ } = parse_result;
        let mut jsx_transform = JSXTransform::new(&client);
        let jsx_el = match jsx {
            Some(el) => el,
            None => {
                proof {
                    assert(false);
                }
                return OutModule { items: Vec::new() };
            },
        };
        let mut markup = jsx_transform.transform(jsx_el);

        let server_stmts: Vec<Stmt> = match server {
            Some(server_block) => ServerTransform::transform(server_block),
            None => Vec::new(),
        };

        let mut module_items: Vec<OutItem> = Vec::new();

        let mut rest_decls = declarations;
        let ghost all_decls = rest_decls@;
        let mut i: usize = 0;
        proof {
            vstd::std_specs::vec::axiom_spec_len(&rest_decls);
        }
        while rest_decls.len() > 0
            invariant
                all_decls.len() <= usize::MAX,
                0 <= i <= all_decls.len(),
                all_decls.len() - i == rest_decls.len(),
                rest_decls@ =~= all_decls.skip(i as int),
                module_items@.len() == i,
                forall|j: int|
                    0 <= j < i ==> #[trigger] module_items@[j] == OutItem::Decl(all_decls[j]),
            decreases rest_decls.len(),
        {
            let d = rest_decls.remove(0);
            proof {
                assert(all_decls.skip(i as int)[0] == all_decls[i as int]);
                assert(rest_decls@ =~= all_decls.skip(i + 1));
            }
            module_items.push(OutItem::Decl(d));
            i = i + 1;
        }

        let mut rest_stmts = server_stmts;
        let ghost all_stmts = rest_stmts@;
        let mut k: usize = 0;
        proof {
            vstd::std_specs::vec::axiom_spec_len(&rest_stmts);
        }
        while rest_stmts.len() > 0
            invariant
                all_stmts.len() <= usize::MAX,
                0 <= k <= all_stmts.len(),
                all_stmts.len() - k == rest_stmts.len(),
                rest_stmts@ =~= all_stmts.skip(k as int),
                module_items@.len() == all_decls.len() + k,
                forall|j: int|
                    0 <= j < all_decls.len() ==> #[trigger] module_items@[j] == OutItem::Decl(
                        all_decls[j],
                    ),
                forall|j: int|
                    0 <= j < k ==> #[trigger] module_items@[all_decls.len() + j] == OutItem::Stmt(
                        all_stmts[j],
                    ),
            decreases rest_stmts.len(),
        {
            let st = rest_stmts.remove(0);
            proof {
                assert(all_stmts.skip(k as int)[0] == all_stmts[k as int]);
                assert(rest_stmts@ =~= all_stmts.skip(k + 1));
            }
            module_items.push(OutItem::Stmt(st));
            k = k + 1;
        }

        let render = match markup.pop() {
            Some(d) => d,
            None => {
                proof {
                    assert(false);
                }
                return OutModule { items: module_items };
            },
        };
        module_items.push(OutItem::Render(render));

        OutModule { items: module_items }
    }
}

} // verus!
