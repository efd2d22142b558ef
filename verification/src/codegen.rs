//! Emitter: serializes markup as template text, reproducing the source's
//! own line decisions, and passes everything that is not markup through the
//! external pretty-printer's text.
//!
//! Formatting rule: two siblings are parted by a line break when their
//! source lines differ, else by a single space (attributes) or by nothing
//! (children); the line breaks around a children list follow whether the
//! author put the first and last child on the opening tag's own line.
use vstd::prelude::*;
use vstd::string::StringExecFns;

use crate::ast::{
    JSXAttr, JSXAttrName, JSXAttrOrSpread, JSXAttrValue, JSXClosingElement, JSXElement,
    JSXElementChild, JSXElementName, JSXExpr, JSXExprContainer, JSXMemberExpr, JSXNamespacedName,
    JSXOpeningElement, JSXSpreadChild, JSXText, LineSpan, Stmt,
};
use crate::parser::ParseResult;
use crate::transform::{OutDecl, OutItem, OutModule, Slot};

verus! {

/// The span of a child node, as the frontend reported it.
pub open spec fn spec_child_span(c: JSXElementChild) -> LineSpan {
    match c {
        JSXElementChild::Text(t) => t.span,
        JSXElementChild::ExprContainer(ec) => ec.span,
        JSXElementChild::Element(el) => (*el).span,
        JSXElementChild::Spread(sp) => sp.span,
    }
}

/// The span of an attribute entry.
pub open spec fn spec_attr_span(a: JSXAttrOrSpread) -> LineSpan {
    match a {
        JSXAttrOrSpread::Attr(at) => at.span,
        JSXAttrOrSpread::Spread { span, .. } => span,
    }
}

/// A line break when `b` holds, nothing otherwise.
pub open spec fn spec_nl_if(b: bool) -> Seq<char> {
    if b {
        "\n"@
    } else {
        Seq::<char>::empty()
    }
}

/// A dotted path: the segments joined by periods.
pub open spec fn spec_join_dot(path: Seq<String>) -> Seq<char>
    decreases path,
{
    if path.len() == 0 {
        Seq::<char>::empty()
    } else if path.len() == 1 {
        path.last()@
    } else {
        spec_join_dot(path.drop_last()) + "."@ + path.last()@
    }
}

/// A namespaced name: namespace, colon, name.
pub open spec fn spec_emit_namespaced_name(n: JSXNamespacedName) -> Seq<char> {
    n.ns@ + ":"@ + n.name@
}

/// A member tag name: the object path, a period, the property.
pub open spec fn spec_emit_member_expr(m: JSXMemberExpr) -> Seq<char> {
    spec_join_dot(m.obj@) + "."@ + m.prop@
}

/// A tag name in any of its three shapes.
pub open spec fn spec_emit_element_name(n: JSXElementName) -> Seq<char> {
    match n {
        JSXElementName::Ident(s) => s@,
        JSXElementName::Member(m) => spec_emit_member_expr(m),
        JSXElementName::Namespaced(nn) => spec_emit_namespaced_name(nn),
    }
}

/// An attribute name.
pub open spec fn spec_emit_attr_name(n: JSXAttrName) -> Seq<char> {
    match n {
        JSXAttrName::Ident(s) => s@,
        JSXAttrName::Namespaced(nn) => spec_emit_namespaced_name(nn),
    }
}

/// The text of one element: opening tag, children, closing tag if present.
pub open spec fn spec_emit_element(el: JSXElement) -> Seq<char>
    decreases el,
{
    spec_emit_opening_element(el.opening) + spec_emit_children_list(el.span, el.children@)
        + match el.closing {
        Some(c) => spec_emit_closing_element(c),
        None => Seq::<char>::empty(),
    }
}

/// The text of an opening tag.
pub open spec fn spec_emit_opening_element(op: JSXOpeningElement) -> Seq<char>
    decreases op,
{
    "<"@ + spec_emit_element_name(op.name) + " "@ + spec_emit_attrs_list(op.span, op.attrs@) + (
    if op.self_closing {
        "/"@
    } else {
        Seq::<char>::empty()
    }) + ">"@
}

/// The text of a closing tag.
pub open spec fn spec_emit_closing_element(c: JSXClosingElement) -> Seq<char> {
    "</"@ + spec_emit_element_name(c.name) + ">"@
}

/// The text of one attribute, `name` or `name=value`.
pub open spec fn spec_emit_attr(at: JSXAttr) -> Seq<char>
    decreases at,
{
    spec_emit_attr_name(at.name) + match at.value {
        Some(v) => "="@ + spec_emit_attr_value(v),
        None => Seq::<char>::empty(),
    }
}

/// The text of an attribute value: a literal's own text, or an embedded
/// expression container.
pub open spec fn spec_emit_attr_value(v: JSXAttrValue) -> Seq<char>
    decreases v,
{
    match v {
        JSXAttrValue::Lit { text, .. } => text@,
        JSXAttrValue::Container(c) => spec_emit_expr_container(c),
    }
}

/// The text of one attribute entry: a named attribute, or a braced spread.
pub open spec fn spec_emit_attr_or_spread(a: JSXAttrOrSpread) -> Seq<char>
    decreases a,
{
    match a {
        JSXAttrOrSpread::Attr(at) => spec_emit_attr(at),
        JSXAttrOrSpread::Spread { expr, .. } => "{"@ + (*expr).code@ + "}"@,
    }
}

/// The text of an expression container: the template-string hole, with a
/// nested markup element serialized in place and any other expression
/// printed by the external pretty-printer.
pub open spec fn spec_emit_expr_container(c: JSXExprContainer) -> Seq<char>
    decreases c,
{
    "`,"@ + (match c.expr {
        JSXExpr::Empty => Seq::<char>::empty(),
        JSXExpr::Expr(e) => match (*e).kind {
            crate::ast::ExprKind::Element(el) => spec_emit_element(*el),
            _ => (*e).code@,
        },
    }) + ",`"@
}

/// The text of one child.
pub open spec fn spec_emit_child(c: JSXElementChild) -> Seq<char>
    decreases c,
{
    match c {
        JSXElementChild::Text(t) => t.value@,
        JSXElementChild::Element(el) => spec_emit_element(*el),
        JSXElementChild::ExprContainer(ec) => spec_emit_expr_container(ec),
        JSXElementChild::Spread(sp) => "{"@ + "..."@ + (*sp.expr).code@ + "}"@,
    }
}

/// The children in document order, a line break between two siblings whose
/// source lines differ, nothing between siblings on one line.
pub open spec fn spec_emit_children_seq(cs: Seq<JSXElementChild>) -> Seq<char>
    decreases cs, 0int,
{
    if cs.len() == 0 {
        Seq::<char>::empty()
    } else if cs.len() == 1 {
        spec_emit_child(cs.last())
    } else {
        spec_emit_children_seq(cs.drop_last()) + spec_nl_if(
            spec_child_span(cs[cs.len() - 2]).hi_line != spec_child_span(cs.last()).lo_line,
        ) + spec_emit_child(cs.last())
    }
}

/// A whole children list: a leading line break when the first child left the
/// opening tag's line, the children with their separators, and a trailing
/// line break when the last child ended off the parent's closing line.
pub open spec fn spec_emit_children_list(parent: LineSpan, cs: Seq<JSXElementChild>) -> Seq<char>
    decreases cs, 1int,
{
    if cs.len() == 0 {
        Seq::<char>::empty()
    } else {
        spec_nl_if(spec_child_span(cs.first()).lo_line != parent.lo_line)
            + spec_emit_children_seq(cs) + spec_nl_if(
            spec_child_span(cs.last()).hi_line != parent.hi_line,
        )
    }
}

/// The attributes in order, a line break between two whose source lines
/// differ, a single space otherwise.
pub open spec fn spec_emit_attrs_seq(attrs: Seq<JSXAttrOrSpread>) -> Seq<char>
    decreases attrs, 0int,
{
    if attrs.len() == 0 {
        Seq::<char>::empty()
    } else if attrs.len() == 1 {
        spec_emit_attr_or_spread(attrs.last())
    } else {
        spec_emit_attrs_seq(attrs.drop_last()) + (if spec_attr_span(attrs[attrs.len() - 2]).hi_line
            != spec_attr_span(attrs.last()).lo_line {
            "\n"@
        } else {
            " "@
        }) + spec_emit_attr_or_spread(attrs.last())
    }
}

/// A whole attribute list: a leading line break when the first attribute
/// left the opening tag's line, then the attributes with their separators.
pub open spec fn spec_emit_attrs_list(parent: LineSpan, attrs: Seq<JSXAttrOrSpread>) -> Seq<char>
    decreases attrs, 1int,
{
    if attrs.len() == 0 {
        Seq::<char>::empty()
    } else {
        spec_nl_if(spec_attr_span(attrs.first()).lo_line != parent.lo_line)
            + spec_emit_attrs_seq(attrs)
    }
}

/// The exported component constant wrapping one serialized markup root.
pub open spec fn spec_emit_bmr_jsx(el: JSXElement) -> Seq<char> {
    "export const $$Component = [`"@ + spec_emit_element(el) + "`]"@
}

/// The server statements' own text, one after the other, exactly as the
/// external pretty-printer rendered each.
pub open spec fn spec_server_code(ss: Seq<Stmt>) -> Seq<char>
    decreases ss,
{
    if ss.len() == 0 {
        Seq::<char>::empty()
    } else {
        spec_server_code(ss.drop_last()) + ss.last().code@
    }
}

/// The pass-through declarations' own text, in order, exactly as the
/// external pretty-printer rendered each.
pub open spec fn spec_decls_code(ds: Seq<crate::ast::ModuleDecl>) -> Seq<char>
    decreases ds,
{
    if ds.len() == 0 {
        Seq::<char>::empty()
    } else {
        spec_decls_code(ds.drop_last()) + ds.last().code@
    }
}

/// A plain text sink that keeps everything appended to it.
#[derive(Debug)]
pub struct BasicJSXWriter {
    pub out: String,
}

impl BasicJSXWriter {
    pub fn new() -> (r: BasicJSXWriter)
        ensures
            r.out@ == Seq::<char>::empty(),
    {
        BasicJSXWriter { out: String::new() }
    }

    /// Appends `data`; empty input leaves the sink alone.
    pub fn write(&mut self, data: &str) -> (r: Result<(), ()>)
        ensures
            final(self).out@ == old(self).out@ + data@,
            r is Ok,
    {
        if data.is_empty() {
            proof {
                assert(old(self).out@ + data@ =~= old(self).out@);
            }
            return Ok(());
        }
        self.raw_write(data)
    }

    /// Appends `data` unconditionally.
    pub fn raw_write(&mut self, data: &str) -> (r: Result<(), ()>)
        ensures
            final(self).out@ == old(self).out@ + data@,
            r is Ok,
    {
        self.out.append(data);
        Ok(())
    }

    /// Appends one space.
    pub fn write_space(&mut self) -> (r: Result<(), ()>)
        ensures
            final(self).out@ == old(self).out@ + " "@,
            r is Ok,
    {
        self.write_raw(" ")
    }

    /// Appends one line break.
    pub fn write_newline(&mut self) -> (r: Result<(), ()>)
        ensures
            final(self).out@ == old(self).out@ + "\n"@,
            r is Ok,
    {
        self.raw_write("\n")
    }

    /// Appends a piece of text that holds no line break of its own.
    pub fn write_raw(&mut self, text: &str) -> (r: Result<(), ()>)
        ensures
            final(self).out@ == old(self).out@ + text@,
            r is Ok,
    {
        self.write(text)
    }

    /// Appends a piece of text, line breaks included.
    pub fn write_str(&mut self, s: &str) -> (r: Result<(), ()>)
        ensures
            final(self).out@ == old(self).out@ + s@,
            r is Ok,
    {
        if s.is_empty() {
            proof {
                assert(old(self).out@ + s@ =~= old(self).out@);
            }
            return Ok(());
        }
        self.raw_write(s)
    }
}

/// The span of a child, as the emitter consults it.
fn child_span(c: &JSXElementChild) -> (r: LineSpan)
    ensures
        r == spec_child_span(*c),
{
    match c {
        JSXElementChild::Text(t) => t.span,
        JSXElementChild::ExprContainer(ec) => ec.span,
        JSXElementChild::Element(el) => el.span,
        JSXElementChild::Spread(sp) => sp.span,
    }
}

/// The span of an attribute entry, as the emitter consults it.
fn attr_span(a: &JSXAttrOrSpread) -> (r: LineSpan)
    ensures
        r == spec_attr_span(*a),
{
    match a {
        JSXAttrOrSpread::Attr(at) => at.span,
        JSXAttrOrSpread::Spread { span, .. } => *span,
    }
}

/// The emitter: markup template text goes to its own writer, while the
/// pass-through statements' pretty-printed text is gathered beside it, so
/// the two emission passes can later be joined into one destination.
#[derive(Debug)]
pub struct Emitter {
    pub code_out: String,
    pub wr: BasicJSXWriter,
}

impl Emitter {
    pub fn new() -> (r: Emitter)
        ensures
            r.code_out@ == Seq::<char>::empty(),
            r.wr.out@ == Seq::<char>::empty(),
    {
        Emitter { code_out: String::new(), wr: BasicJSXWriter::new() }
    }

    /// Emits the server block's statements verbatim, then the markup root as
    /// an exported component constant.
    pub fn emit_bmr_stmts(&mut self, result: ParseResult) -> (r: Result<(), ()>)
        ensures
            r is Ok,
            final(self).code_out@ == old(self).code_out@ + spec_decls_code(result.declarations@)
                + match result.server {
                Some(sb) => spec_server_code(sb.block@),
                None => Seq::<char>::empty(),
            },
            final(self).wr.out@ == old(self).wr.out@ + match result.jsx {
                Some(el) => spec_emit_bmr_jsx(el),
                None => Seq::<char>::empty(),
            },
    {
        let decls = result.declarations;
        let mut d: usize = 0;
        proof {
            assert(decls@.take(0) =~= Seq::<crate::ast::ModuleDecl>::empty());
            assert(old(self).code_out@ + Seq::<char>::empty() =~= old(self).code_out@);
        }
        while d < decls.len()
            invariant
                0 <= d <= decls@.len(),
                self.code_out@ == old(self).code_out@ + spec_decls_code(decls@.take(d as int)),
                self.wr == old(self).wr,
            decreases decls@.len() - d,
        {
            self.code_out.append(decls[d].code.as_str());
            proof {
                assert(decls@.take(d + 1).drop_last() =~= decls@.take(d as int));
                assert(decls@.take(d + 1).last() == decls@[d as int]);
                assert(self.code_out@ =~= old(self).code_out@ + spec_decls_code(
                    decls@.take(d + 1),
                ));
            }
            d = d + 1;
        }
        proof {
            assert(decls@.take(decls@.len() as int) =~= decls@);
        }
        let ghost after_decls = old(self).code_out@ + spec_decls_code(decls@);

        match result.server {
            Some(server) => {
                let mut i: usize = 0;
                let stmts = server.block;
                proof {
                    assert(stmts@.take(0) =~= Seq::<Stmt>::empty());
                    assert(after_decls + Seq::<char>::empty() =~= after_decls);
                }
                while i < stmts.len()
                    invariant
                        0 <= i <= stmts@.len(),
                        after_decls == old(self).code_out@ + spec_decls_code(decls@),
                        self.code_out@ == after_decls + spec_server_code(stmts@.take(i as int)),
                        self.wr == old(self).wr,
                    decreases stmts@.len() - i,
                {
                    self.code_out.append(stmts[i].code.as_str());
                    proof {
                        assert(stmts@.take(i + 1).drop_last() =~= stmts@.take(i as int));
                        assert(stmts@.take(i + 1).last() == stmts@[i as int]);
                        assert(self.code_out@ =~= after_decls + spec_server_code(
                            stmts@.take(i + 1),
                        ));
                    }
                    i = i + 1;
                }
                proof {
                    assert(stmts@.take(stmts@.len() as int) =~= stmts@);
                    assert(self.code_out@ =~= old(self).code_out@ + spec_decls_code(decls@)
                        + spec_server_code(stmts@));
                }
            },
            None => {
                proof {
                    assert(after_decls + Seq::<char>::empty() =~= after_decls);
                }
            },
        }

        match result.jsx {
            Some(jsx) => {
                self.emit_bmr_jsx(&jsx)
            },
            None => {
                proof {
                    assert(old(self).wr.out@ + Seq::<char>::empty() =~= old(self).wr.out@);
                }
                Ok(())
            },
        }
    }

    /// Emits one markup root as the exported component constant.
    pub fn emit_bmr_jsx(&mut self, node: &JSXElement) -> (r: Result<(), ()>)
        ensures
            r is Ok,
            final(self).code_out == old(self).code_out,
            final(self).wr.out@ == old(self).wr.out@ + spec_emit_bmr_jsx(*node),
    {
        let _ = self.wr.write_str("export const $$Component = [`");
        self.emit_jsx_element(node);
        let r = self.wr.write_str("`]");
        proof {
            assert(final(self).wr.out@ =~= old(self).wr.out@ + spec_emit_bmr_jsx(*node));
        }
        r
    }

    fn emit_jsx_element(&mut self, node: &JSXElement)
        ensures
            final(self).code_out == old(self).code_out,
            final(self).wr.out@ == old(self).wr.out@ + spec_emit_element(*node),
        decreases *node,
    {
        self.emit_jsx_opening_element(&node.opening);
        self.emit_jsx_element_or_fragment_children(node.span, &node.children);
        match &node.closing {
            Some(closing) => {
                self.emit_jsx_closing_element(closing);
            },
            None => {},
        }
        proof {
            assert(final(self).wr.out@ =~= old(self).wr.out@ + spec_emit_element(*node));
        }
    }

    fn emit_jsx_opening_element(&mut self, node: &JSXOpeningElement)
        ensures
            final(self).code_out == old(self).code_out,
            final(self).wr.out@ == old(self).wr.out@ + spec_emit_opening_element(*node),
        decreases *node,
    {
        let _ = self.wr.write_raw("<");
        self.emit_jsx_element_name(&node.name);
        let _ = self.wr.write_space();
        self.emit_jsx_attributes(node.span, &node.attrs);
        if node.self_closing {
            let _ = self.wr.write_raw("/");
        }
        let _ = self.wr.write_raw(">");
        proof {
            assert(final(self).wr.out@ =~= old(self).wr.out@ + spec_emit_opening_element(*node));
        }
    }

    fn emit_jsx_closing_element(&mut self, node: &JSXClosingElement)
        ensures
            final(self).code_out == old(self).code_out,
            final(self).wr.out@ == old(self).wr.out@ + spec_emit_closing_element(*node),
    {
        let _ = self.wr.write_raw("</");
        self.emit_jsx_element_name(&node.name);
        let _ = self.wr.write_raw(">");
        proof {
            assert(final(self).wr.out@ =~= old(self).wr.out@ + spec_emit_closing_element(*node));
        }
    }

    fn emit_jsx_element_name(&mut self, node: &JSXElementName)
        ensures
            final(self).code_out == old(self).code_out,
            final(self).wr.out@ == old(self).wr.out@ + spec_emit_element_name(*node),
    {
        match node {
            JSXElementName::Ident(n) => {
                let _ = self.wr.write_raw(n.as_str());
            },
            JSXElementName::Member(n) => {
                self.emit_jsx_member_expr(n);
            },
            JSXElementName::Namespaced(n) => {
                self.emit_jsx_namespaced_name(n);
            },
        }
    }

    #[verifier::loop_isolation(false)]
    fn emit_jsx_member_expr(&mut self, node: &JSXMemberExpr)
        ensures
            final(self).code_out == old(self).code_out,
            final(self).wr.out@ == old(self).wr.out@ + spec_emit_member_expr(*node),
    {
        let mut i: usize = 0;
        proof {
            assert(node.obj@.take(0) =~= Seq::<String>::empty());
        }
        while i < node.obj.len()
            invariant
                0 <= i <= node.obj@.len(),
                self.code_out == old(self).code_out,
                self.wr.out@ == old(self).wr.out@ + spec_join_dot(node.obj@.take(i as int)),
            decreases node.obj@.len() - i,
        {
            if i > 0 {
                let _ = self.wr.write_raw(".");
            }
            let _ = self.wr.write_raw(node.obj[i].as_str());
            proof {
                assert(node.obj@.take(i + 1).drop_last() =~= node.obj@.take(i as int));
                assert(node.obj@.take(i + 1).last() == node.obj@[i as int]);
                assert(self.wr.out@ =~= old(self).wr.out@ + spec_join_dot(
                    node.obj@.take(i + 1),
                ));
            }
            i = i + 1;
        }
        proof {
            assert(node.obj@.take(node.obj@.len() as int) =~= node.obj@);
        }
        let _ = self.wr.write_raw(".");
        let _ = self.wr.write_raw(node.prop.as_str());
        proof {
            assert(final(self).wr.out@ =~= old(self).wr.out@ + spec_emit_member_expr(*node));
        }
    }

    fn emit_jsx_namespaced_name(&mut self, node: &JSXNamespacedName)
        ensures
            final(self).code_out == old(self).code_out,
            final(self).wr.out@ == old(self).wr.out@ + spec_emit_namespaced_name(*node),
    {
        let _ = self.wr.write_raw(node.ns.as_str());
        let _ = self.wr.write_raw(":");
        let _ = self.wr.write_raw(node.name.as_str());
        proof {
            assert(final(self).wr.out@ =~= old(self).wr.out@ + spec_emit_namespaced_name(*node));
        }
    }

    fn emit_jsx_attr(&mut self, node: &JSXAttr)
        ensures
            final(self).code_out == old(self).code_out,
            final(self).wr.out@ == old(self).wr.out@ + spec_emit_attr(*node),
        decreases *node,
    {
        self.emit_jsx_attr_name(&node.name);
        match &node.value {
            Some(value) => {
                let _ = self.wr.write_raw("=");
                self.emit_jsx_attr_value(value);
            },
            None => {},
        }
        proof {
            assert(final(self).wr.out@ =~= old(self).wr.out@ + spec_emit_attr(*node));
        }
    }

    fn emit_jsx_attr_value(&mut self, node: &JSXAttrValue)
        ensures
            final(self).code_out == old(self).code_out,
            final(self).wr.out@ == old(self).wr.out@ + spec_emit_attr_value(*node),
        decreases *node,
    {
        match node {
            JSXAttrValue::Lit { text, .. } => {
                let _ = self.wr.write_str(text.as_str());
            },
            JSXAttrValue::Container(c) => {
                self.emit_jsx_expr_container(c);
            },
        }
    }

    fn emit_jsx_attr_name(&mut self, node: &JSXAttrName)
        ensures
            final(self).code_out == old(self).code_out,
            final(self).wr.out@ == old(self).wr.out@ + spec_emit_attr_name(*node),
    {
        match node {
            JSXAttrName::Ident(n) => {
                let _ = self.wr.write_raw(n.as_str());
            },
            JSXAttrName::Namespaced(n) => {
                self.emit_jsx_namespaced_name(n);
            },
        }
    }

    fn emit_jsx_attr_or_spread(&mut self, node: &JSXAttrOrSpread)
        ensures
            final(self).code_out == old(self).code_out,
            final(self).wr.out@ == old(self).wr.out@ + spec_emit_attr_or_spread(*node),
        decreases *node,
    {
        match node {
            JSXAttrOrSpread::Attr(n) => {
                self.emit_jsx_attr(n);
            },
            JSXAttrOrSpread::Spread { expr, .. } => {
                let _ = self.wr.write_raw("{");
                let _ = self.wr.write_str(expr.code.as_str());
                let _ = self.wr.write_raw("}");
                proof {
                    assert(final(self).wr.out@ =~= old(self).wr.out@ + spec_emit_attr_or_spread(
                        *node,
                    ));
                }
            },
        }
    }

    fn emit_jsx_element_child(&mut self, node: &JSXElementChild)
        ensures
            final(self).code_out == old(self).code_out,
            final(self).wr.out@ == old(self).wr.out@ + spec_emit_child(*node),
        decreases *node,
    {
        match node {
            JSXElementChild::Element(n) => {
                self.emit_jsx_element(n);
            },
            JSXElementChild::ExprContainer(n) => {
                self.emit_jsx_expr_container(n);
            },
            JSXElementChild::Spread(n) => {
                self.emit_jsx_spread_child(n);
            },
            JSXElementChild::Text(n) => {
                self.emit_jsx_text(n);
            },
        }
    }

    fn emit_jsx_spread_child(&mut self, node: &JSXSpreadChild)
        ensures
            final(self).code_out == old(self).code_out,
            final(self).wr.out@ == old(self).wr.out@ + "{"@ + "..."@ + (*node.expr).code@
                + "}"@,
    {
        let _ = self.wr.write_raw("{");
        let _ = self.wr.write_raw("...");
        let _ = self.wr.write_str(node.expr.code.as_str());
        let _ = self.wr.write_raw("}");
        proof {
            assert(final(self).wr.out@ =~= old(self).wr.out@ + "{"@ + "..."@ + (*node.expr).code@
                + "}"@);
        }
    }

    fn emit_jsx_expr_container(&mut self, node: &JSXExprContainer)
        ensures
            final(self).code_out == old(self).code_out,
            final(self).wr.out@ == old(self).wr.out@ + spec_emit_expr_container(*node),
        decreases *node,
    {
        let _ = self.wr.write_raw("`,");
        match &node.expr {
            JSXExpr::Empty => {},
            JSXExpr::Expr(e) => {
                match &e.kind {
                    crate::ast::ExprKind::Element(el) => {
                        self.emit_jsx_element(el);
                    },
                    _ => {
                        let _ = self.wr.write_str(e.code.as_str());
                    },
                }
            },
        }
        let _ = self.wr.write_raw(",`");
        proof {
            assert(final(self).wr.out@ =~= old(self).wr.out@ + spec_emit_expr_container(*node));
        }
    }

    fn emit_jsx_text(&mut self, node: &JSXText)
        ensures
            final(self).code_out == old(self).code_out,
            final(self).wr.out@ == old(self).wr.out@ + node.value@,
    {
        let _ = self.wr.write_str(node.value.as_str());
    }

    #[verifier::loop_isolation(false)]
    fn emit_jsx_element_or_fragment_children(
        &mut self,
        parent_node: LineSpan,
        children: &Vec<JSXElementChild>,
    )
        ensures
            final(self).code_out == old(self).code_out,
            final(self).wr.out@ == old(self).wr.out@ + spec_emit_children_list(
                parent_node,
                children@,
            ),
        decreases *children,
    {
        if children.len() == 0 {
            proof {
                assert(old(self).wr.out@ + spec_emit_children_list(parent_node, children@)
                    =~= old(self).wr.out@);
            }
            return ;
        }
        if child_span(&children[0]).lo_line != parent_node.lo_line {
            let _ = self.wr.write_newline();
        }
        let ghost lead = old(self).wr.out@ + spec_nl_if(
            spec_child_span(children@.first()).lo_line != parent_node.lo_line,
        );
        proof {
            assert(self.wr.out@ =~= lead);
        }
        let mut i: usize = 0;
        while i < children.len()
            invariant
                0 <= i <= children@.len(),
                self.code_out == old(self).code_out,
                self.wr.out@ == lead + spec_emit_children_seq(children@.take(i as int)),
            decreases children@.len() - i,
        {
            proof {
                broadcast use vstd::seq::axiom_seq_index_decreases;

                assert(decreases_to!(children => children@));
                assert(decreases_to!(children@ => children@[i as int]));
            }
            if i > 0 {
                if child_span(&children[i - 1]).hi_line != child_span(&children[i]).lo_line {
                    let _ = self.wr.write_newline();
                }
            }
            self.emit_jsx_element_child(&children[i]);
            proof {
                assert(children@.take(i + 1).drop_last() =~= children@.take(i as int));
                assert(children@.take(i + 1).last() == children@[i as int]);
                if i > 0 {
                    assert(children@.take(i + 1)[i - 1] == children@[i - 1]);
                }
                assert(self.wr.out@ =~= lead + spec_emit_children_seq(children@.take(i + 1)));
            }
            i = i + 1;
        }
        proof {
            assert(children@.take(children@.len() as int) =~= children@);
        }
        let n = children.len();
        if child_span(&children[n - 1]).hi_line != parent_node.hi_line {
            let _ = self.wr.write_newline();
        }
        proof {
            assert(final(self).wr.out@ =~= old(self).wr.out@ + spec_emit_children_list(
                parent_node,
                children@,
            ));
        }
    }

    #[verifier::loop_isolation(false)]
    fn emit_jsx_attributes(&mut self, parent_node: LineSpan, children: &Vec<JSXAttrOrSpread>)
        ensures
            final(self).code_out == old(self).code_out,
            final(self).wr.out@ == old(self).wr.out@ + spec_emit_attrs_list(
                parent_node,
                children@,
            ),
        decreases *children,
    {
        if children.len() == 0 {
            proof {
                assert(old(self).wr.out@ + spec_emit_attrs_list(parent_node, children@)
                    =~= old(self).wr.out@);
            }
            return ;
        }
        if attr_span(&children[0]).lo_line != parent_node.lo_line {
            let _ = self.wr.write_newline();
        }
        let ghost lead = old(self).wr.out@ + spec_nl_if(
            spec_attr_span(children@.first()).lo_line != parent_node.lo_line,
        );
        proof {
            assert(self.wr.out@ =~= lead);
        }
        let mut i: usize = 0;
        while i < children.len()
            invariant
                0 <= i <= children@.len(),
                self.code_out == old(self).code_out,
                self.wr.out@ == lead + spec_emit_attrs_seq(children@.take(i as int)),
            decreases children@.len() - i,
        {
            proof {
                broadcast use vstd::seq::axiom_seq_index_decreases;

                assert(decreases_to!(children => children@));
                assert(decreases_to!(children@ => children@[i as int]));
            }
            if i > 0 {
                if attr_span(&children[i - 1]).hi_line != attr_span(&children[i]).lo_line {
                    let _ = self.wr.write_newline();
                } else {
                    let _ = self.wr.write_space();
                }
            }
            self.emit_jsx_attr_or_spread(&children[i]);
            proof {
                assert(children@.take(i + 1).drop_last() =~= children@.take(i as int));
                assert(children@.take(i + 1).last() == children@[i as int]);
                if i > 0 {
                    assert(children@.take(i + 1)[i - 1] == children@[i - 1]);
                }
                assert(self.wr.out@ =~= lead + spec_emit_attrs_seq(children@.take(i + 1)));
            }
            i = i + 1;
        }
        proof {
            assert(children@.take(children@.len() as int) =~= children@);
        }
    }
}

/// The text of one template slot in the render array: a quoted literal
/// fragment, an embedded expression's own text (a markup element serializes
/// as its markup), a nested array, or a spread.
pub open spec fn spec_slot_text(s: Slot) -> Seq<char>
    decreases s,
{
    match s {
        Slot::Lit(t) => "\""@ + t@ + "\""@,
        Slot::Dyn(e) => match (*e).kind {
            crate::ast::ExprKind::Element(el) => spec_emit_element(*el),
            _ => (*e).code@,
        },
        Slot::Arr(v) => "["@ + spec_slots_join(v@) + "]"@,
        Slot::Spread(e) => "..."@ + (*e).code@,
    }
}

/// The slots' texts joined by commas.
pub open spec fn spec_slots_join(v: Seq<Slot>) -> Seq<char>
    decreases v,
{
    if v.len() == 0 {
        Seq::<char>::empty()
    } else if v.len() == 1 {
        spec_slot_text(v.last())
    } else {
        spec_slots_join(v.drop_last()) + ", "@ + spec_slot_text(v.last())
    }
}

/// The exported render function around a template body.
pub open spec fn spec_render_fn_text(name: Seq<char>, body: Seq<Slot>) -> Seq<char> {
    "export function "@ + name + "() {\n    return ["@ + spec_slots_join(body) + "];\n}\n"@
}

/// The text owed for one generated module item: pass-through text for
/// declarations and statements, the render function for the synthesized
/// declaration.
pub open spec fn spec_out_item_text(it: OutItem) -> Seq<char> {
    match it {
        OutItem::Decl(d) => d.code@,
        OutItem::Stmt(s) => s.code@,
        OutItem::Render(OutDecl::ExportRenderFn { name, body }) => spec_render_fn_text(
            name@,
            body@,
        ),
    }
}

/// The whole generated module's text, item after item.
pub open spec fn spec_out_module_text(items: Seq<OutItem>) -> Seq<char>
    decreases items,
{
    if items.len() == 0 {
        Seq::<char>::empty()
    } else {
        spec_out_module_text(items.drop_last()) + spec_out_item_text(items.last())
    }
}

/// The render-array text of one slot.
fn slot_text(s: &Slot) -> (r: String)
    ensures
        r@ == spec_slot_text(*s),
    decreases *s,
{
    match s {
        Slot::Lit(t) => "\"".to_owned().concat(t.as_str()).concat("\""),
        Slot::Dyn(e) => match &e.kind {
            crate::ast::ExprKind::Element(el) => {
                let mut em = Emitter::new();
                em.emit_jsx_element(el);
                em.wr.out
            },
            _ => e.code.clone(),
        },
        Slot::Arr(v) => "[".to_owned().concat(slots_join(v).as_str()).concat("]"),
        Slot::Spread(e) => "...".to_owned().concat(e.code.as_str()),
    }
}

/// The slots' texts joined by commas.
#[verifier::loop_isolation(false)]
fn slots_join(v: &Vec<Slot>) -> (r: String)
    ensures
        r@ == spec_slots_join(v@),
    decreases *v,
{
    let mut out = String::new();
    let mut i: usize = 0;
    proof {
        assert(v@.take(0) =~= Seq::<Slot>::empty());
    }
    while i < v.len()
        invariant
            0 <= i <= v@.len(),
            out@ == spec_slots_join(v@.take(i as int)),
        decreases v@.len() - i,
    {
        proof {
            broadcast use vstd::seq::axiom_seq_index_decreases;

            assert(decreases_to!(v => v@));
            assert(decreases_to!(v@ => v@[i as int]));
        }
        if i > 0 {
            out.append(", ");
        }
        let t = slot_text(&v[i]);
        out.append(t.as_str());
        proof {
            assert(v@.take(i + 1).drop_last() =~= v@.take(i as int));
            assert(v@.take(i + 1).last() == v@[i as int]);
            assert(out@ =~= spec_slots_join(v@.take(i + 1)));
        }
        i = i + 1;
    }
    proof {
        assert(v@.take(v@.len() as int) =~= v@);
    }
    out
}

/// Serializes a generated module: declarations and server statements
/// verbatim, then the exported render function returning the template as a
/// literal array of quoted fragments and embedded expressions.
#[verifier::loop_isolation(false)]
pub fn render_module_text(m: &OutModule) -> (r: String)
    ensures
        r@ == spec_out_module_text(m.items@),
{
    let mut out = String::new();
    let mut i: usize = 0;
    proof {
        assert(m.items@.take(0) =~= Seq::<OutItem>::empty());
    }
    while i < m.items.len()
        invariant
            0 <= i <= m.items@.len(),
            out@ == spec_out_module_text(m.items@.take(i as int)),
        decreases m.items@.len() - i,
    {
        match &m.items[i] {
            OutItem::Decl(d) => {
                out.append(d.code.as_str());
            },
            OutItem::Stmt(s) => {
                out.append(s.code.as_str());
            },
            OutItem::Render(OutDecl::ExportRenderFn { name, body }) => {
                out.append("export function ");
                out.append(name.as_str());
                out.append("() {\n    return [");
                let t = slots_join(body);
                out.append(t.as_str());
                out.append("];\n}\n");
            },
        }
        proof {
            assert(m.items@.take(i + 1).drop_last() =~= m.items@.take(i as int));
            assert(m.items@.take(i + 1).last() == m.items@[i as int]);
            assert(out@ =~= spec_out_module_text(m.items@.take(i + 1)));
        }
        i = i + 1;
    }
    proof {
        assert(m.items@.take(m.items@.len() as int) =~= m.items@);
    }
    out
}

} // verus!
