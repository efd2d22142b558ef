//! Reactive scope graph builder: walks the statement tree looking for nested
//! function scopes, declared variables, and reactive (`$:`-labeled)
//! statements, and produces a pruned scope tree.
//!
//! Scopes live in an index-addressed arena: each retained scope is identified
//! by a stable integer handle; children hold owning handles, parents hold the
//! same handles as non-owning back-references. A scope is retained only if it
//! has reactive statements, retained children, or an already-assigned
//! identity; everything else is discarded when its function is left.
use vstd::prelude::*;

use crate::ast::{Expr, ExprKind, FnDecl, LabeledStmt, Module, ModuleItem, Pat, Stmt, StmtKind, VarDeclarator};
use crate::parser::Fatal;

verus! {

/// A single `$:`-labeled statement: the identifiers passed as direct call
/// arguments anywhere inside its expression, in visit order.
#[derive(Clone, Debug, PartialEq)]
pub struct ReactiveStatement {
    pub signals: Vec<String>,
}

/// One node of the scope tree. Handles index the arena of the graph this
/// scope belongs to.
#[derive(Clone, Debug, PartialEq)]
pub struct Scope {
    pub id: Option<usize>,
    pub children: Vec<usize>,
    pub parent: Option<usize>,
    pub params: Vec<String>,
    pub var_decls: Vec<String>,
    pub reactive_statements: Vec<ReactiveStatement>,
}

impl Scope {
    /// A fresh scope with the given parameter names and nothing else.
    pub fn new_with_params(params: Vec<String>) -> (r: Scope)
        ensures
            r.id is None,
            r.children@ == Seq::<usize>::empty(),
            r.parent is None,
            r.params == params,
            r.var_decls@ == Seq::<String>::empty(),
            r.reactive_statements@ == Seq::<ReactiveStatement>::empty(),
    {
        Scope {
            id: None,
            children: Vec::new(),
            parent: None,
            params,
            var_decls: Vec::new(),
            reactive_statements: Vec::new(),
        }
    }
}

/// The arena holding every retained scope. A slot is reserved (empty) when a
/// scope's identity is needed before the scope itself is finished, and filled
/// when the scope is placed.
#[derive(Debug)]
pub struct ScopeArena {
    pub slots: Vec<Option<Scope>>,
}

/// The builder's result: the arena and the root scope, which stands for the
/// module's top level and is not itself stored in the arena.
#[derive(Debug)]
pub struct ReactiveGraph {
    pub arena: ScopeArena,
    pub root: Scope,
}

/// The ghost image of a scope: the same data over sequences.
pub ghost struct SpecScope {
    pub id: Option<usize>,
    pub children: Seq<usize>,
    pub parent: Option<usize>,
    pub params: Seq<String>,
    pub var_decls: Seq<String>,
    pub reactive: Seq<Seq<String>>,
}

/// The ghost image of an executable scope.
pub open spec fn scope_view(s: Scope) -> SpecScope {
    SpecScope {
        id: s.id,
        children: s.children@,
        parent: s.parent,
        params: s.params@,
        var_decls: s.var_decls@,
        reactive: Seq::new(
            s.reactive_statements@.len(),
            |i: int| s.reactive_statements@[i].signals@,
        ),
    }
}

/// The ghost image of a scope stack.
pub open spec fn stack_view(v: Seq<Scope>) -> Seq<SpecScope> {
    Seq::new(v.len(), |i: int| scope_view(v[i]))
}

/// The ghost image of the arena's slots.
pub open spec fn slots_view(v: Seq<Option<Scope>>) -> Seq<Option<SpecScope>> {
    Seq::new(
        v.len(),
        |i: int|
            match v[i] {
                Some(s) => Some(scope_view(s)),
                None => None,
            },
    )
}

/// The builder's whole state while walking: the scope stack (root at the
/// bottom), the arena slots, and whether a malformed reactive statement was
/// hit (after which the walk is abandoned).
pub ghost struct BState {
    pub stack: Seq<SpecScope>,
    pub slots: Seq<Option<SpecScope>>,
    pub bad: bool,
}

/// The identifier names among a parameter pattern list, in order.
pub open spec fn spec_param_idents(ps: Seq<Pat>) -> Seq<String>
    decreases ps,
{
    if ps.len() == 0 {
        Seq::empty()
    } else {
        spec_param_idents(ps.drop_last()) + match ps.last() {
            Pat::Ident(n) => seq![n],
            _ => Seq::<String>::empty(),
        }
    }
}

/// The identifiers passed directly as arguments of one call, in order.
pub open spec fn spec_ident_args(args: Seq<Expr>) -> Seq<String>
    decreases args,
{
    if args.len() == 0 {
        Seq::empty()
    } else {
        spec_ident_args(args.drop_last()) + match args.last().kind {
            ExprKind::Ident(n) => seq![n],
            _ => Seq::<String>::empty(),
        }
    }
}

/// The signals a reactive statement reads from `e`: for every call in the
/// expression, the identifiers among its direct arguments, in visit order
/// (a call's own arguments first, then its callee, then inside each argument).
pub open spec fn spec_signals_expr(e: Expr) -> Seq<String>
    decreases e,
{
    match e.kind {
        ExprKind::Call(c) => spec_ident_args(c.args@) + spec_signals_expr(*c.callee)
            + spec_signals_exprs(c.args@),
        _ => Seq::empty(),
    }
}

/// The signals read from each expression of `args`, concatenated in order.
pub open spec fn spec_signals_exprs(args: Seq<Expr>) -> Seq<String>
    decreases args,
{
    if args.len() == 0 {
        Seq::empty()
    } else {
        spec_signals_exprs(args.drop_last()) + spec_signals_expr(args.last())
    }
}

/// A scope is retained iff it has reactive statements, retained children, or
/// an already-assigned identity.
pub open spec fn spec_keep(sc: SpecScope) -> bool {
    sc.reactive.len() > 0 || sc.children.len() > 0 || sc.id is Some
}

/// A fresh ghost scope with the given parameters.
pub open spec fn spec_new_scope(params: Seq<String>) -> SpecScope {
    SpecScope {
        id: None,
        children: Seq::empty(),
        parent: None,
        params,
        var_decls: Seq::empty(),
        reactive: Seq::empty(),
    }
}

/// Ensures the scope below the top of `stack` has an identity, reserving the
/// next arena slot for it if needed. Returns the updated stack and slots;
/// the reserved identity is then `stack.last().id`.
pub open spec fn spec_reserve_top(stack: Seq<SpecScope>, slots: Seq<Option<SpecScope>>) -> (
    Seq<SpecScope>,
    Seq<Option<SpecScope>>,
)
    recommends
        stack.len() > 0,
{
    if stack.last().id is Some {
        (stack, slots)
    } else {
        (
            stack.update(
                stack.len() - 1,
                SpecScope { id: Some(slots.len() as usize), ..stack.last() },
            ),
            slots.push(None),
        )
    }
}

/// Places a finished scope: into its reserved slot if it has one, else into
/// a fresh slot at the end. Returns the new slots and the scope's handle.
pub open spec fn spec_place(slots: Seq<Option<SpecScope>>, sc: SpecScope) -> (
    Seq<Option<SpecScope>>,
    usize,
)
{
    match sc.id {
        Some(i) => if i < slots.len() {
            (slots.update(i as int, Some(sc)), i)
        } else {
            (slots.push(Some(sc)), slots.len() as usize)
        },
        None => (slots.push(Some(sc)), slots.len() as usize),
    }
}

/// Leaving a function: pop its scope; discard it if inert, otherwise give it
/// a parent link to the (lazily identified) enclosing scope, place it in the
/// arena, and register it as a child of the parent.
pub open spec fn spec_finish_fn(st: BState) -> BState {
    if st.stack.len() == 0 {
        st
    } else {
        let sc = st.stack.last();
        let rest = st.stack.drop_last();
        if !spec_keep(sc) {
            BState { stack: rest, ..st }
        } else if rest.len() == 0 {
            st
        } else {
            let (rest2, slots2) = spec_reserve_top(rest, st.slots);
            let pid = rest2.last().id;
            let sc2 = SpecScope { parent: pid, ..sc };
            let (slots3, sid) = spec_place(slots2, sc2);
            let parent2 = SpecScope {
                children: rest2.last().children.push(sid),
                ..rest2.last()
            };
            BState {
                stack: rest2.update(rest2.len() - 1, parent2),
                slots: slots3,
                bad: st.bad,
            }
        }
    }
}

/// Appends `x` to a field of the scope on top of the stack.
pub open spec fn spec_update_top(stack: Seq<SpecScope>, top: SpecScope) -> Seq<SpecScope>
    recommends
        stack.len() > 0,
{
    stack.update(stack.len() - 1, top)
}

/// Entering and leaving a function declaration: a fresh scope seeded with
/// the identifier parameters, the body walked, and the scope pruned or
/// retained on the way out.
pub open spec fn sv_fn(st: BState, f: FnDecl) -> BState
    decreases f,
{
    let st1 = BState { stack: st.stack.push(spec_new_scope(spec_param_idents(f.params@))), ..st };
    let st2 = sv_stmts(st1, f.body@);
    if st2.bad {
        st2
    } else {
        spec_finish_fn(st2)
    }
}

/// A labeled statement: the reactive marker attaches its signals to the
/// scope on top of the stack and demands a single expression-statement body;
/// any other label is left alone, body included.
pub open spec fn sv_labeled(st: BState, l: LabeledStmt) -> BState {
    if l.label@ == "$"@ {
        match (*l.body).kind {
            StmtKind::Expr(e) => {
                if st.stack.len() == 0 {
                    st
                } else {
                    let top = st.stack.last();
                    let top2 = SpecScope { reactive: top.reactive.push(spec_signals_expr(*e)), ..top };
                    BState { stack: spec_update_top(st.stack, top2), ..st }
                }
            },
            _ => BState { bad: true, ..st },
        }
    } else {
        st
    }
}

/// One step of the walk over a statement.
pub open spec fn sv_stmt(st: BState, s: Stmt) -> BState
    decreases s,
{
    if st.bad {
        st
    } else {
        match s.kind {
            StmtKind::FnDecl(f) => sv_fn(st, f),
            StmtKind::Labeled(l) => sv_labeled(st, l),
            StmtKind::VarDecl(ds) => BState { stack: sv_declarators(st.stack, ds@), ..st },
            StmtKind::Block(ss) => sv_stmts(st, ss@),
            _ => st,
        }
    }
}

/// Records one declarator: a plainly-named binding joins the declared
/// variables of the scope on top of the stack; other patterns are ignored.
pub open spec fn sv_declarator(
    stack: Seq<SpecScope>,
    d: VarDeclarator,
) -> Seq<SpecScope> {
    if stack.len() == 0 {
        stack
    } else {
        match d.name {
            Pat::Ident(n) => {
                let top = stack.last();
                spec_update_top(stack, SpecScope { var_decls: top.var_decls.push(n), ..top })
            },
            _ => stack,
        }
    }
}

/// The declarators of one declaration, recorded in order.
pub open spec fn sv_declarators(
    stack: Seq<SpecScope>,
    ds: Seq<VarDeclarator>,
) -> Seq<SpecScope>
    decreases ds,
{
    if ds.len() == 0 {
        stack
    } else {
        sv_declarator(sv_declarators(stack, ds.drop_last()), ds.last())
    }
}

/// The walk folded over a statement sequence.
pub open spec fn sv_stmts(st: BState, ss: Seq<Stmt>) -> BState
    decreases ss,
{
    if ss.len() == 0 {
        st
    } else {
        sv_stmt(sv_stmts(st, ss.drop_last()), ss.last())
    }
}

/// The walk folded over the module's top-level items; declarations carry no
/// statements and are skipped.
pub open spec fn sv_items(st: BState, items: Seq<ModuleItem>) -> BState
    decreases items,
{
    if items.len() == 0 {
        st
    } else {
        let st1 = sv_items(st, items.drop_last());
        match items.last() {
            ModuleItem::Stmt(s) => sv_stmt(st1, s),
            _ => st1,
        }
    }
}

/// The builder's whole outcome for a module: the fold started from one empty
/// root scope on the stack and an empty arena.
pub open spec fn spec_build(items: Seq<ModuleItem>) -> BState {
    sv_items(
        BState {
            stack: seq![spec_new_scope(Seq::empty())],
            slots: Seq::empty(),
            bad: false,
        },
        items,
    )
}

proof fn lemma_len_decls(stack: Seq<SpecScope>, ds: Seq<VarDeclarator>)
    ensures
        sv_declarators(stack, ds).len() == stack.len(),
    decreases ds,
{
    if ds.len() == 0 {
    } else {
        lemma_len_decls(stack, ds.drop_last());
    }
}

/// The walk leaves the stack depth alone unless it was abandoned: scopes are
/// pushed and popped in matched pairs.
proof fn lemma_len_stmt(st: BState, s: Stmt)
    requires
        st.stack.len() >= 1,
    ensures
        sv_stmt(st, s).bad || sv_stmt(st, s).stack.len() == st.stack.len(),
    decreases s,
{
    if st.bad {
    } else {
        match s.kind {
            StmtKind::FnDecl(f) => {
                lemma_len_fn(st, f);
            },
            StmtKind::VarDecl(ds) => {
                lemma_len_decls(st.stack, ds@);
            },
            StmtKind::Block(ss) => {
                lemma_len_stmts(st, ss@);
            },
            _ => {},
        }
    }
}

proof fn lemma_len_fn(st: BState, f: FnDecl)
    requires
        st.stack.len() >= 1,
        !st.bad,
    ensures
        sv_fn(st, f).bad || sv_fn(st, f).stack.len() == st.stack.len(),
    decreases f,
{
    let st1 = BState { stack: st.stack.push(spec_new_scope(spec_param_idents(f.params@))), ..st };
    lemma_len_stmts(st1, f.body@);
    let st2 = sv_stmts(st1, f.body@);
    if !st2.bad {
        assert(st2.stack.len() == st.stack.len() + 1);
    }
}

proof fn lemma_len_stmts(st: BState, ss: Seq<Stmt>)
    requires
        st.stack.len() >= 1,
    ensures
        sv_stmts(st, ss).bad || sv_stmts(st, ss).stack.len() == st.stack.len(),
    decreases ss,
{
    if ss.len() == 0 {
    } else {
        lemma_len_stmts(st, ss.drop_last());
        let st1 = sv_stmts(st, ss.drop_last());
        if !st1.bad {
            lemma_len_stmt(st1, ss.last());
        }
    }
}

proof fn lemma_len_items(st: BState, items: Seq<ModuleItem>)
    requires
        st.stack.len() >= 1,
    ensures
        sv_items(st, items).bad || sv_items(st, items).stack.len() == st.stack.len(),
    decreases items,
{
    if items.len() == 0 {
    } else {
        lemma_len_items(st, items.drop_last());
        let st1 = sv_items(st, items.drop_last());
        if !st1.bad {
            match items.last() {
                ModuleItem::Stmt(s) => {
                    lemma_len_stmt(st1, s);
                },
                _ => {},
            }
        }
    }
}

/// The identifier names among a parameter list.
fn param_idents(ps: &Vec<Pat>) -> (r: Vec<String>)
    ensures
        r@ == spec_param_idents(ps@),
{
    let mut out: Vec<String> = Vec::new();
    let mut i: usize = 0;
    proof {
        assert(ps@.take(0) =~= Seq::<Pat>::empty());
    }
    while i < ps.len()
        invariant
            0 <= i <= ps@.len(),
            out@ == spec_param_idents(ps@.take(i as int)),
        decreases ps@.len() - i,
    {
        match &ps[i] {
            Pat::Ident(n) => {
                out.push(n.clone());
            },
            _ => {},
        }
        proof {
            assert(ps@.take(i + 1).drop_last() =~= ps@.take(i as int));
            assert(ps@.take(i + 1).last() == ps@[i as int]);
            match ps@[i as int] {
                Pat::Ident(n) => {
                    assert(out@ =~= spec_param_idents(ps@.take(i as int)) + seq![n]);
                },
                _ => {
                    assert(out@ =~= spec_param_idents(ps@.take(i as int))
                        + Seq::<String>::empty());
                },
            }
        }
        i = i + 1;
    }
    proof {
        assert(ps@.take(ps@.len() as int) =~= ps@);
    }
    out
}

/// Appends to `out` every signal the expression reads, in visit order.
#[verifier::loop_isolation(false)]
fn collect_signals(e: &Expr, out: &mut Vec<String>)
    ensures
        final(out)@ == old(out)@ + spec_signals_expr(*e),
    decreases *e,
{
    match &e.kind {
        ExprKind::Call(c) => {
            let ghost base = out@;
            let mut i: usize = 0;
            proof {
                assert(c.args@.take(0) =~= Seq::<Expr>::empty());
                assert(base + spec_ident_args(c.args@.take(0)) =~= base);
            }
            while i < c.args.len()
                invariant
                    0 <= i <= c.args@.len(),
                    out@ == base + spec_ident_args(c.args@.take(i as int)),
                decreases c.args@.len() - i,
            {
                match &c.args[i].kind {
                    ExprKind::Ident(n) => {
                        out.push(n.clone());
                    },
                    _ => {},
                }
                proof {
                    assert(c.args@.take(i + 1).drop_last() =~= c.args@.take(i as int));
                    assert(c.args@.take(i + 1).last() == c.args@[i as int]);
                    match c.args@[i as int].kind {
                        ExprKind::Ident(n) => {
                            assert(out@ =~= base + (spec_ident_args(c.args@.take(i as int))
                                + seq![n]));
                        },
                        _ => {
                            assert(out@ =~= base + (spec_ident_args(c.args@.take(i as int))
                                + Seq::<String>::empty()));
                        },
                    }
                }
                i = i + 1;
            }
            proof {
                assert(c.args@.take(c.args@.len() as int) =~= c.args@);
            }
            collect_signals(&c.callee, out);
            let ghost base2 = out@;
            let mut j: usize = 0;
            proof {
                assert(c.args@.take(0) =~= Seq::<Expr>::empty());
                assert(base2 + spec_signals_exprs(c.args@.take(0)) =~= base2);
            }
            while j < c.args.len()
                invariant
                    0 <= j <= c.args@.len(),
                    out@ == base2 + spec_signals_exprs(c.args@.take(j as int)),
                decreases c.args@.len() - j,
            {
                proof {
                    broadcast use vstd::seq::axiom_seq_index_decreases;

                    assert(decreases_to!(c.args => c.args@));
                    assert(decreases_to!(c.args@ => c.args@[j as int]));
                }
                collect_signals(&c.args[j], out);
                proof {
                    assert(c.args@.take(j + 1).drop_last() =~= c.args@.take(j as int));
                    assert(c.args@.take(j + 1).last() == c.args@[j as int]);
                    assert(out@ =~= base2 + (spec_signals_exprs(c.args@.take(j as int))
                        + spec_signals_expr(c.args@[j as int])));
                }
                j = j + 1;
            }
            proof {
                assert(c.args@.take(c.args@.len() as int) =~= c.args@);
                assert(out@ =~= old(out)@ + spec_signals_expr(*e));
            }
        },
        _ => {
            proof {
                assert(out@ =~= old(out)@ + Seq::<String>::empty());
            }
        },
    }
}

proof fn lemma_prefix_bad_stmts(st: BState, ss: Seq<Stmt>, i: int)
    requires
        0 <= i <= ss.len(),
        sv_stmts(st, ss.take(i)).bad,
    ensures
        sv_stmts(st, ss).bad,
    decreases ss.len(),
{
    if i == ss.len() {
        assert(ss.take(i) =~= ss);
    } else {
        assert(ss.drop_last().take(i) =~= ss.take(i));
        lemma_prefix_bad_stmts(st, ss.drop_last(), i);
        assert(sv_stmt(sv_stmts(st, ss.drop_last()), ss.last()) == sv_stmts(st, ss.drop_last()));
    }
}

proof fn lemma_prefix_bad_items(st: BState, items: Seq<ModuleItem>, i: int)
    requires
        0 <= i <= items.len(),
        sv_items(st, items.take(i)).bad,
    ensures
        sv_items(st, items).bad,
    decreases items.len(),
{
    if i == items.len() {
        assert(items.take(i) =~= items);
    } else {
        assert(items.drop_last().take(i) =~= items.take(i));
        lemma_prefix_bad_items(st, items.drop_last(), i);
        match items.last() {
            ModuleItem::Stmt(s2) => {
                assert(sv_stmt(sv_items(st, items.drop_last()), s2) == sv_items(
                    st,
                    items.drop_last(),
                ));
            },
            _ => {},
        }
    }
}

/// The builder's working state: the arena being filled and the explicit
/// scope stack, the root at the bottom.
pub struct Context {
    pub arena: Option<ScopeArena>,
    pub scope_stack: Vec<Scope>,
}

/// The ghost image of the arena's slots, empty before the arena exists.
pub open spec fn ctx_slots(ctx: Context) -> Seq<Option<SpecScope>> {
    match ctx.arena {
        Some(a) => slots_view(a.slots@),
        None => Seq::empty(),
    }
}

/// The ghost image of the whole working state.
pub open spec fn ctx_state(ctx: Context) -> BState {
    BState { stack: stack_view(ctx.scope_stack@), slots: ctx_slots(ctx), bad: false }
}

/// The reactive graph builder over a borrowed module.
pub struct Parser<'a> {
    pub ast: &'a Module,
    pub context: Context,
}

impl<'a> Parser<'a> {
    pub fn new(ast: &'a Module) -> (r: Parser<'a>)
        ensures
            r.ast == ast,
            r.context.arena is None,
            r.context.scope_stack@ == Seq::<Scope>::empty(),
    {
        Parser { ast, context: Context { arena: None, scope_stack: Vec::new() } }
    }

    fn alloc_scope(&mut self, scope: Scope) -> (r: usize)
        requires
            old(self).context.arena is Some,
        ensures
            final(self).ast == old(self).ast,
            final(self).context.arena is Some,
            final(self).context.scope_stack == old(self).context.scope_stack,
            (ctx_slots(final(self).context), r) == spec_place(
                ctx_slots(old(self).context),
                scope_view(scope),
            ),
    {
        match &mut self.context.arena {
            Some(a) => {
                let ghost s0 = slots_view(a.slots@);
                match scope.id {
                    Some(i) => {
                        if i < a.slots.len() {
                            a.slots.set(i, Some(scope));
                            proof {
                                assert(slots_view(a.slots@) =~= s0.update(
                                    i as int,
                                    Some(scope_view(scope)),
                                ));
                            }
                            i
                        } else {
                            let id = a.slots.len();
                            a.slots.push(Some(scope));
                            proof {
                                assert(slots_view(a.slots@) =~= s0.push(Some(scope_view(scope))));
                            }
                            id
                        }
                    },
                    None => {
                        let id = a.slots.len();
                        a.slots.push(Some(scope));
                        proof {
                            assert(slots_view(a.slots@) =~= s0.push(Some(scope_view(scope))));
                        }
                        id
                    },
                }
            },
            None => {
                proof {
                    assert(false);
                }
                0
            },
        }
    }

    fn register_scope(&mut self, scope: usize)
        requires
            old(self).context.scope_stack@.len() > 0,
        ensures
            final(self).ast == old(self).ast,
            final(self).context.arena == old(self).context.arena,
            ({
                let st = stack_view(old(self).context.scope_stack@);
                let top = st.last();
                stack_view(final(self).context.scope_stack@) == spec_update_top(
                    st,
                    SpecScope { children: top.children.push(scope), ..top },
                )
            }),
    {
        let mut top = self.context.scope_stack.pop().unwrap();
        top.children.push(scope);
        self.context.scope_stack.push(top);
        proof {
            let st = stack_view(old(self).context.scope_stack@);
            let t = st.last();
            assert(stack_view(self.context.scope_stack@) =~= spec_update_top(
                st,
                SpecScope { children: t.children.push(scope), ..t },
            ));
        }
    }

    fn register_reactive_statment(&mut self, r_stmt: ReactiveStatement)
        requires
            old(self).context.scope_stack@.len() > 0,
        ensures
            final(self).ast == old(self).ast,
            final(self).context.arena == old(self).context.arena,
            ({
                let st = stack_view(old(self).context.scope_stack@);
                let top = st.last();
                stack_view(final(self).context.scope_stack@) == spec_update_top(
                    st,
                    SpecScope { reactive: top.reactive.push(r_stmt.signals@), ..top },
                )
            }),
    {
        let mut top = self.context.scope_stack.pop().unwrap();
        top.reactive_statements.push(r_stmt);
        self.context.scope_stack.push(top);
        proof {
            let st = stack_view(old(self).context.scope_stack@);
            let t = st.last();
            assert(scope_view(self.context.scope_stack@.last()).reactive =~= t.reactive.push(
                r_stmt.signals@,
            ));
            assert(stack_view(self.context.scope_stack@) =~= spec_update_top(
                st,
                SpecScope { reactive: t.reactive.push(r_stmt.signals@), ..t },
            ));
        }
    }

    fn register_var_decl(&mut self, v_decl: String)
        requires
            old(self).context.scope_stack@.len() > 0,
        ensures
            final(self).ast == old(self).ast,
            final(self).context.arena == old(self).context.arena,
            ({
                let st = stack_view(old(self).context.scope_stack@);
                let top = st.last();
                stack_view(final(self).context.scope_stack@) == spec_update_top(
                    st,
                    SpecScope { var_decls: top.var_decls.push(v_decl), ..top },
                )
            }),
    {
        let mut top = self.context.scope_stack.pop().unwrap();
        top.var_decls.push(v_decl);
        self.context.scope_stack.push(top);
        proof {
            let st = stack_view(old(self).context.scope_stack@);
            let t = st.last();
            assert(scope_view(self.context.scope_stack@.last()).reactive =~= t.reactive);
            assert(stack_view(self.context.scope_stack@) =~= spec_update_top(
                st,
                SpecScope { var_decls: t.var_decls.push(v_decl), ..t },
            ));
        }
    }

    fn get_or_set_last_scope_id(&mut self) -> (r: usize)
        requires
            old(self).context.scope_stack@.len() > 0,
            old(self).context.arena is Some,
        ensures
            final(self).ast == old(self).ast,
            final(self).context.arena is Some,
            ({
                let (stack2, slots2) = spec_reserve_top(
                    stack_view(old(self).context.scope_stack@),
                    ctx_slots(old(self).context),
                );
                &&& stack_view(final(self).context.scope_stack@) == stack2
                &&& ctx_slots(final(self).context) == slots2
                &&& stack2.last().id == Some(r)
            }),
    {
        let n = self.context.scope_stack.len();
        let cur_id = self.context.scope_stack[n - 1].id;
        match cur_id {
            Some(i) => i,
            None => {
                let id = match &mut self.context.arena {
                    Some(a) => {
                        let id = a.slots.len();
                        a.slots.push(None);
                        id
                    },
                    None => {
                        proof {
                            assert(false);
                        }
                        0
                    },
                };
                let mut top = self.context.scope_stack.pop().unwrap();
                top.id = Some(id);
                self.context.scope_stack.push(top);
                proof {
                    let st = stack_view(old(self).context.scope_stack@);
                    let t = st.last();
                    assert(scope_view(self.context.scope_stack@.last()).reactive =~= t.reactive);
                    assert(stack_view(self.context.scope_stack@) =~= st.update(
                        st.len() - 1,
                        SpecScope { id: Some(ctx_slots(old(self).context).len() as usize), ..t },
                    ));
                    assert(ctx_slots(self.context) =~= ctx_slots(old(self).context).push(None));
                }
                id
            },
        }
    }
}

impl<'a> Parser<'a> {
    fn visit_var_declarator(&mut self, d: &VarDeclarator)
        requires
            old(self).context.scope_stack@.len() > 0,
        ensures
            final(self).ast == old(self).ast,
            final(self).context.arena == old(self).context.arena,
            stack_view(final(self).context.scope_stack@) == sv_declarator(
                stack_view(old(self).context.scope_stack@),
                *d,
            ),
    {
        match &d.name {
            Pat::Ident(id) => {
                self.register_var_decl(id.clone());
            },
            _ => {},
        }
    }

    fn visit_labeled_stmt(&mut self, l: &LabeledStmt) -> (r: Result<(), Fatal>)
        requires
            old(self).context.scope_stack@.len() > 0,
        ensures
            final(self).ast == old(self).ast,
            match r {
                Ok(_) => !sv_labeled(ctx_state(old(self).context), *l).bad
                    && final(self).context.arena == old(self).context.arena
                    && stack_view(final(self).context.scope_stack@) == sv_labeled(
                    ctx_state(old(self).context),
                    *l,
                ).stack,
                Err(f) => sv_labeled(ctx_state(old(self).context), *l).bad && f
                    == Fatal::ReactiveBodyNotExpression,
            },
    {
        if crate::ast::str_is(&l.label, "$") {
            match &l.body.kind {
                StmtKind::Expr(e) => {
                    let mut signals: Vec<String> = Vec::new();
                    collect_signals(e, &mut signals);
                    proof {
                        assert(signals@ =~= Seq::<String>::empty() + spec_signals_expr(*(*l).body.kind->Expr_0));
                        assert(signals@ =~= spec_signals_expr(*(*l).body.kind->Expr_0));
                    }
                    self.register_reactive_statment(ReactiveStatement { signals });
                    Ok(())
                },
                _ => Err(Fatal::ReactiveBodyNotExpression),
            }
        } else {
            Ok(())
        }
    }
}

impl<'a> Parser<'a> {
    #[verifier::loop_isolation(false)]
    fn visit_stmts(&mut self, ss: &Vec<Stmt>) -> (r: Result<(), Fatal>)
        requires
            old(self).context.scope_stack@.len() >= 1,
            old(self).context.arena is Some,
        ensures
            final(self).ast == old(self).ast,
            match r {
                Ok(_) => !sv_stmts(ctx_state(old(self).context), ss@).bad && final(self).context.arena is Some
                    && ctx_state(final(self).context) == sv_stmts(
                    ctx_state(old(self).context),
                    ss@,
                ),
                Err(f) => sv_stmts(ctx_state(old(self).context), ss@).bad && f
                    == Fatal::ReactiveBodyNotExpression,
            },
        decreases *ss,
    {
        let ghost st0 = ctx_state(old(self).context);
        let mut i: usize = 0;
        proof {
            assert(ss@.take(0) =~= Seq::<Stmt>::empty());
        }
        while i < ss.len()
            invariant
                0 <= i <= ss@.len(),
                self.ast == old(self).ast,
                self.context.arena is Some,
                self.context.scope_stack@.len() == old(self).context.scope_stack@.len(),
                ctx_state(self.context) == sv_stmts(st0, ss@.take(i as int)),
            decreases ss@.len() - i,
        {
            proof {
                broadcast use vstd::seq::axiom_seq_index_decreases;

                assert(decreases_to!(ss => ss@));
                assert(decreases_to!(ss@ => ss@[i as int]));
                assert(stack_view(self.context.scope_stack@).len()
                    == self.context.scope_stack@.len());
            }
            let ghost pre = ctx_state(self.context);
            match self.visit_stmt(&ss[i]) {
                Ok(_) => {},
                Err(f) => {
                    proof {
                        assert(ss@.take(i + 1).drop_last() =~= ss@.take(i as int));
                        assert(ss@.take(i + 1).last() == ss@[i as int]);
                        assert(sv_stmts(st0, ss@.take(i + 1)).bad);
                        lemma_prefix_bad_stmts(st0, ss@, i + 1);
                    }
                    return Err(f);
                },
            }
            proof {
                assert(ss@.take(i + 1).drop_last() =~= ss@.take(i as int));
                assert(ss@.take(i + 1).last() == ss@[i as int]);
                lemma_len_stmt(pre, ss@[i as int]);
            }
            i = i + 1;
        }
        proof {
            assert(ss@.take(ss@.len() as int) =~= ss@);
        }
        Ok(())
    }

    fn visit_stmt(&mut self, s: &Stmt) -> (r: Result<(), Fatal>)
        requires
            old(self).context.scope_stack@.len() >= 1,
            old(self).context.arena is Some,
        ensures
            final(self).ast == old(self).ast,
            match r {
                Ok(_) => !sv_stmt(ctx_state(old(self).context), *s).bad && final(self).context.arena is Some
                    && ctx_state(final(self).context) == sv_stmt(
                    ctx_state(old(self).context),
                    *s,
                ),
                Err(f) => sv_stmt(ctx_state(old(self).context), *s).bad && f
                    == Fatal::ReactiveBodyNotExpression,
            },
        decreases *s,
    {
        match &s.kind {
            StmtKind::FnDecl(f) => self.visit_fn_decl(f),
            StmtKind::Labeled(l) => {
                proof {
                    assert(stack_view(old(self).context.scope_stack@).len()
                        == old(self).context.scope_stack@.len());
                }
                let r = self.visit_labeled_stmt(l);
                proof {
                    if r is Ok {
                        assert(ctx_state(self.context) == sv_labeled(
                            ctx_state(old(self).context),
                            *l,
                        ));
                    }
                }
                r
            },
            StmtKind::VarDecl(ds) => {
                let ghost stk0 = stack_view(old(self).context.scope_stack@);
                let mut i: usize = 0;
                proof {
                    assert(ds@.take(0) =~= Seq::<VarDeclarator>::empty());
                }
                while i < ds.len()
                    invariant
                        0 <= i <= ds@.len(),
                        self.ast == old(self).ast,
                        self.context.arena == old(self).context.arena,
                        stk0 == stack_view(old(self).context.scope_stack@),
                        old(self).context.scope_stack@.len() >= 1,
                        self.context.scope_stack@.len()
                            == old(self).context.scope_stack@.len(),
                        stack_view(self.context.scope_stack@) == sv_declarators(
                            stk0,
                            ds@.take(i as int),
                        ),
                        ds@ == s.kind->VarDecl_0@,
                    decreases ds@.len() - i,
                {
                    proof {
                        assert(stack_view(self.context.scope_stack@).len()
                            == self.context.scope_stack@.len());
                    }
                    self.visit_var_declarator(&ds[i]);
                    proof {
                        assert(ds@.take(i + 1).drop_last() =~= ds@.take(i as int));
                        assert(ds@.take(i + 1).last() == ds@[i as int]);
                        assert(stack_view(self.context.scope_stack@).len()
                            == self.context.scope_stack@.len());
                        assert(sv_declarators(stk0, ds@.take(i + 1)).len() == stack_view(
                            self.context.scope_stack@,
                        ).len());
                    }
                    i = i + 1;
                }
                proof {
                    assert(ds@.take(ds@.len() as int) =~= ds@);
                }
                Ok(())
            },
            StmtKind::Block(ss) => self.visit_stmts(ss),
            _ => Ok(()),
        }
    }

    fn visit_fn_decl(&mut self, f: &FnDecl) -> (r: Result<(), Fatal>)
        requires
            old(self).context.scope_stack@.len() >= 1,
            old(self).context.arena is Some,
        ensures
            final(self).ast == old(self).ast,
            match r {
                Ok(_) => !sv_fn(ctx_state(old(self).context), *f).bad && final(self).context.arena is Some
                    && ctx_state(final(self).context) == sv_fn(
                    ctx_state(old(self).context),
                    *f,
                ),
                Err(fe) => sv_fn(ctx_state(old(self).context), *f).bad && fe
                    == Fatal::ReactiveBodyNotExpression,
            },
        decreases *f,
    {
        let ghost st0 = ctx_state(old(self).context);
        let params = param_idents(&f.params);
        let scope = Scope::new_with_params(params);
        self.context.scope_stack.push(scope);
        proof {
            assert(scope_view(scope).reactive =~= Seq::<Seq<String>>::empty());
            assert(scope_view(scope) == spec_new_scope(spec_param_idents(f.params@)));
            assert(stack_view(self.context.scope_stack@) =~= st0.stack.push(
                spec_new_scope(spec_param_idents(f.params@)),
            ));
        }
        let ghost st1 = BState {
            stack: st0.stack.push(spec_new_scope(spec_param_idents(f.params@))),
            ..st0
        };
        proof {
            assert(ctx_state(self.context) == st1);
        }
        match self.visit_stmts(&f.body) {
            Ok(_) => {},
            Err(fe) => {
                return Err(fe);
            },
        }
        let ghost st2 = sv_stmts(st1, f.body@);
        proof {
            lemma_len_stmts(st1, f.body@);
            assert(st2.stack.len() == st0.stack.len() + 1);
            assert(self.context.scope_stack@.len() == st2.stack.len());
        }
        let sc = self.context.scope_stack.pop().unwrap();
        proof {
            assert(stack_view(self.context.scope_stack@) =~= st2.stack.drop_last());
            assert(scope_view(sc) == st2.stack.last());
        }
        let keep = sc.reactive_statements.len() > 0 || sc.children.len() > 0 || sc.id.is_some();
        proof {
            assert(scope_view(sc).reactive.len() == sc.reactive_statements@.len());
            assert(keep == spec_keep(st2.stack.last()));
        }
        if keep {
            let parent_id = self.get_or_set_last_scope_id();
            let mut sc2 = sc;
            sc2.parent = Some(parent_id);
            proof {
                let (rest2, slots2) = spec_reserve_top(st2.stack.drop_last(), st2.slots);
                assert(stack_view(self.context.scope_stack@) == rest2);
                assert(ctx_slots(self.context) == slots2);
                assert(scope_view(sc2) == (SpecScope {
                    parent: rest2.last().id,
                    ..st2.stack.last()
                }));
            }
            let sid = self.alloc_scope(sc2);
            self.register_scope(sid);
            proof {
                assert(ctx_state(self.context) == spec_finish_fn(st2));
            }
        } else {
            proof {
                assert(ctx_state(self.context) == spec_finish_fn(st2));
            }
        }
        Ok(())
    }
}

impl<'a> Parser<'a> {
    /// Walks the whole module and returns the pruned scope graph. The only
    /// terminal failure a caller can see is a malformed reactive statement;
    /// the defensive scope-stack checks at the end can never fire, since the
    /// walk pushes and pops scopes in matched pairs.
    #[verifier::loop_isolation(false)]
    pub fn parse_module(&mut self) -> (r: Result<ReactiveGraph, Fatal>)
        requires
            old(self).context.scope_stack@.len() == 0,
        ensures
            final(self).ast == old(self).ast,
            ({
                let fin = spec_build(old(self).ast.items@);
                &&& (r is Ok <==> !fin.bad)
                &&& match r {
                    Ok(g) => fin.stack.len() == 1 && scope_view(g.root) == fin.stack[0]
                        && slots_view(g.arena.slots@) == fin.slots && pruned_slots(
                        slots_view(g.arena.slots@),
                    ) && graph_linked(scope_view(g.root), slots_view(g.arena.slots@)),
                    Err(f) => f == Fatal::ReactiveBodyNotExpression,
                }
            }),
    {
        let ghost init = BState {
            stack: seq![spec_new_scope(Seq::empty())],
            slots: Seq::empty(),
            bad: false,
        };
        self.context.arena = Some(ScopeArena { slots: Vec::new() });
        let scope = Scope::new_with_params(Vec::new());
        self.context.scope_stack.push(scope);
        proof {
            assert(scope_view(scope).reactive =~= Seq::<Seq<String>>::empty());
            assert(scope_view(scope).params =~= Seq::<String>::empty());
            assert(scope_view(scope) == spec_new_scope(Seq::empty()));
            assert(stack_view(self.context.scope_stack@) =~= init.stack);
            assert(ctx_slots(self.context) =~= Seq::<Option<SpecScope>>::empty());
            assert(ctx_state(self.context) == init);
        }

        let ast = self.ast;
        let mut i: usize = 0;
        proof {
            assert(ast.items@.take(0) =~= Seq::<ModuleItem>::empty());
        }
        while i < ast.items.len()
            invariant
                0 <= i <= ast.items@.len(),
                self.ast == old(self).ast,
                self.context.arena is Some,
                self.context.scope_stack@.len() == 1,
                ctx_state(self.context) == sv_items(init, ast.items@.take(i as int)),
            decreases ast.items@.len() - i,
        {
            let ghost pre = ctx_state(self.context);
            match &ast.items[i] {
                ModuleItem::Stmt(s) => {
                    match self.visit_stmt(s) {
                        Ok(_) => {},
                        Err(f) => {
                            proof {
                                assert(ast.items@.take(i + 1).drop_last() =~= ast.items@.take(
                                    i as int,
                                ));
                                assert(ast.items@.take(i + 1).last() == ast.items@[i as int]);
                                assert(sv_items(init, ast.items@.take(i + 1)).bad);
                                lemma_prefix_bad_items(init, ast.items@, i + 1);
                            }
                            return Err(f);
                        },
                    }
                    proof {
                        lemma_len_stmt(pre, ast.items@[i as int]->Stmt_0);
                    }
                },
                _ => {},
            }
            proof {
                assert(ast.items@.take(i + 1).drop_last() =~= ast.items@.take(i as int));
                assert(ast.items@.take(i + 1).last() == ast.items@[i as int]);
            }
            i = i + 1;
        }
        proof {
            assert(ast.items@.take(ast.items@.len() as int) =~= ast.items@);
        }

        let n = self.context.scope_stack.len();
        if n == 1 {
            let root = self.context.scope_stack.pop().unwrap();
            let arena = self.context.arena.take().unwrap();
            proof {
                let fin = spec_build(old(self).ast.items@);
                assert(scope_view(root) == fin.stack[0]);
                lemma_scope_pruning(old(self).ast.items@);
                vstd::std_specs::vec::axiom_spec_len(&arena.slots);
                assert(slots_view(arena.slots@).len() == arena.slots@.len());
                lemma_graph_links(old(self).ast.items@);
                assert(seq![scope_view(root)] =~= fin.stack);
                assert(graph_linked(scope_view(root), slots_view(arena.slots@))) by {
                    assert(BState {
                        stack: seq![scope_view(root)],
                        slots: slots_view(arena.slots@),
                        bad: false,
                    } == BState { stack: fin.stack, slots: fin.slots, bad: false });
                    assert(linked_state(
                        BState { stack: fin.stack, slots: fin.slots, bad: false },
                    )) by {
                        assert(BState { stack: fin.stack, slots: fin.slots, bad: false } == fin);
                    }
                }
            }
            Ok(ReactiveGraph { arena, root })
        } else if n == 0 {
            Err(Fatal::ScopeStackEmpty)
        } else {
            Err(Fatal::ScopeStackUnbalanced)
        }
    }
}


/// `h` stands somewhere in a children list.
pub open spec fn spec_contains_handle(children: Seq<usize>, h: usize) -> bool {
    exists|n: int| 0 <= n < children.len() && children[n] == h
}

/// No handle stands twice in one children list.
pub open spec fn spec_no_dup(children: Seq<usize>) -> bool {
    forall|n1: int, n2: int|
        0 <= n1 < n2 < children.len() ==> #[trigger] children[n1] != #[trigger] children[n2]
}

/// The scope's children handles are valid: each indexes a filled slot whose
/// scope points back at this scope's identity.
pub open spec fn spec_owns(sc: SpecScope, slots: Seq<Option<SpecScope>>) -> bool {
    forall|n: int|
        0 <= n < sc.children.len() ==> {
            let h = (#[trigger] sc.children[n]) as int;
            &&& 0 <= h < slots.len()
            &&& slots[h] is Some
            &&& slots[h]->0.parent == sc.id
        }
}

/// The handle bookkeeping of the walk. Stored scopes sit at the slot their
/// identity names; children and parent handles agree in both directions; a
/// reserved (empty) slot belongs to exactly one stack scope; no children
/// list repeats a handle.
pub open spec fn linked_state(st: BState) -> bool {
    &&& (forall|j: int|
        0 <= j < st.slots.len() && st.slots[j] is Some ==> {
            let sc = (#[trigger] st.slots[j])->0;
            &&& (sc.id is Some ==> sc.id == Some(j as usize))
            &&& (sc.children.len() > 0 ==> sc.id is Some)
            &&& spec_owns(sc, st.slots)
            &&& spec_no_dup(sc.children)
        })
    &&& (forall|k: int|
        0 <= k < st.stack.len() ==> {
            let sc = #[trigger] st.stack[k];
            &&& (sc.children.len() > 0 ==> sc.id is Some)
            &&& spec_owns(sc, st.slots)
            &&& spec_no_dup(sc.children)
        })
    &&& (forall|k: int|
        0 <= k < st.stack.len() ==> match (#[trigger] st.stack[k]).id {
            Some(i) => i < st.slots.len() && st.slots[i as int] is None,
            None => true,
        })
    &&& (forall|j: int|
        0 <= j < st.slots.len() && st.slots[j] is None ==> exists|k: int|
            0 <= k < st.stack.len() && (#[trigger] st.stack[k]).id == Some(j as usize))
    &&& (forall|k1: int, k2: int|
        0 <= k1 < k2 < st.stack.len() && (#[trigger] st.stack[k1]).id is Some && (
        #[trigger] st.stack[k2]).id is Some ==> st.stack[k1].id != st.stack[k2].id)
    &&& (forall|j: int|
        0 <= j < st.slots.len() && st.slots[j] is Some ==> {
            let sc = (#[trigger] st.slots[j])->0;
            match sc.parent {
                Some(i) => {
                    &&& (i as int) < st.slots.len()
                    &&& (st.slots[i as int] is Some ==> spec_contains_handle(
                        st.slots[i as int]->0.children,
                        j as usize,
                    ))
                    &&& (st.slots[i as int] is None ==> exists|k: int|
                        0 <= k < st.stack.len() && (#[trigger] st.stack[k]).id == Some(i)
                            && spec_contains_handle(st.stack[k].children, j as usize))
                },
                None => false,
            }
        })
}


proof fn lemma_linked_update_top(st: BState, top2: SpecScope)
    requires
        linked_state(st),
        st.stack.len() > 0,
        top2.id == st.stack.last().id,
        top2.children == st.stack.last().children,
    ensures
        linked_state(BState { stack: spec_update_top(st.stack, top2), ..st }),
{
    let r = BState { stack: spec_update_top(st.stack, top2), ..st };
    let last = st.stack.len() - 1;
    assert forall|k: int| 0 <= k < r.stack.len() implies {
        let sc = #[trigger] r.stack[k];
        &&& (sc.children.len() > 0 ==> sc.id is Some)
        &&& spec_owns(sc, r.slots)
        &&& spec_no_dup(sc.children)
    } by {
        if k < last {
            assert(r.stack[k] == st.stack[k]);
        } else {
            assert(st.stack[last] == st.stack.last());
            assert(spec_owns(st.stack[last], st.slots));
            assert(spec_owns(r.stack[k], r.slots)) by {
                assert forall|n: int| 0 <= n < r.stack[k].children.len() implies {
                    let h = (#[trigger] r.stack[k].children[n]) as int;
                    &&& 0 <= h < r.slots.len()
                    &&& r.slots[h] is Some
                    &&& r.slots[h]->0.parent == r.stack[k].id
                } by {
                    assert(r.stack[k].children[n] == st.stack[last].children[n]);
                }
            }
        }
    }
    assert forall|k: int| 0 <= k < r.stack.len() implies match (#[trigger] r.stack[k]).id {
        Some(i) => i < r.slots.len() && r.slots[i as int] is None,
        None => true,
    } by {
        if k < last {
            assert(r.stack[k] == st.stack[k]);
        } else {
            assert(st.stack[last] == st.stack.last());
        }
    }
    assert forall|j: int|
        0 <= j < r.slots.len() && r.slots[j] is None implies exists|k: int|
            0 <= k < r.stack.len() && (#[trigger] r.stack[k]).id == Some(j as usize) by {
        let kw = choose|k: int|
            0 <= k < st.stack.len() && (#[trigger] st.stack[k]).id == Some(j as usize);
        assert(r.stack[kw].id == Some(j as usize));
    }
    assert forall|k1: int, k2: int|
        0 <= k1 < k2 < r.stack.len() && (#[trigger] r.stack[k1]).id is Some && (
        #[trigger] r.stack[k2]).id is Some implies r.stack[k1].id != r.stack[k2].id by {
        assert(r.stack[k1].id == st.stack[k1].id);
        assert(r.stack[k2].id == st.stack[k2].id);
    }
    assert forall|j: int| 0 <= j < r.slots.len() && r.slots[j] is Some implies {
        let sc = (#[trigger] r.slots[j])->0;
        match sc.parent {
            Some(i) => {
                &&& (i as int) < r.slots.len()
                &&& (r.slots[i as int] is Some ==> spec_contains_handle(
                    r.slots[i as int]->0.children,
                    j as usize,
                ))
                &&& (r.slots[i as int] is None ==> exists|k: int|
                    0 <= k < r.stack.len() && (#[trigger] r.stack[k]).id == Some(i)
                        && spec_contains_handle(r.stack[k].children, j as usize))
            },
            None => false,
        }
    } by {
        let sc = r.slots[j]->0;
        match sc.parent {
            Some(i) => {
                if r.slots[i as int] is None {
                    let kw = choose|k: int|
                        0 <= k < st.stack.len() && (#[trigger] st.stack[k]).id == Some(i)
                            && spec_contains_handle(st.stack[k].children, j as usize);
                    if kw < last {
                        assert(r.stack[kw] == st.stack[kw]);
                    } else {
                        assert(st.stack[kw] == st.stack.last());
                        assert(r.stack[kw].id == Some(i));
                        assert(r.stack[kw].children == st.stack[kw].children);
                    }
                    assert(r.stack[kw].id == Some(i) && spec_contains_handle(
                        r.stack[kw].children,
                        j as usize,
                    ));
                }
            },
            None => {},
        }
    }
}

proof fn lemma_linked_push(st: BState, params: Seq<String>)
    requires
        linked_state(st),
    ensures
        linked_state(BState { stack: st.stack.push(spec_new_scope(params)), ..st }),
{
    let r = BState { stack: st.stack.push(spec_new_scope(params)), ..st };
    let n = st.stack.len();
    assert forall|k: int| 0 <= k < r.stack.len() implies {
        let sc = #[trigger] r.stack[k];
        &&& (sc.children.len() > 0 ==> sc.id is Some)
        &&& spec_owns(sc, r.slots)
        &&& spec_no_dup(sc.children)
    } by {
        if k < n {
            assert(r.stack[k] == st.stack[k]);
        } else {
            assert(r.stack[k] == spec_new_scope(params));
        }
    }
    assert forall|k: int| 0 <= k < r.stack.len() implies match (#[trigger] r.stack[k]).id {
        Some(i) => i < r.slots.len() && r.slots[i as int] is None,
        None => true,
    } by {
        if k < n {
            assert(r.stack[k] == st.stack[k]);
        }
    }
    assert forall|j: int|
        0 <= j < r.slots.len() && r.slots[j] is None implies exists|k: int|
            0 <= k < r.stack.len() && (#[trigger] r.stack[k]).id == Some(j as usize) by {
        let kw = choose|k: int|
            0 <= k < st.stack.len() && (#[trigger] st.stack[k]).id == Some(j as usize);
        assert(r.stack[kw].id == Some(j as usize));
    }
    assert forall|k1: int, k2: int|
        0 <= k1 < k2 < r.stack.len() && (#[trigger] r.stack[k1]).id is Some && (
        #[trigger] r.stack[k2]).id is Some implies r.stack[k1].id != r.stack[k2].id by {
        assert(k1 < n);
        assert(r.stack[k1] == st.stack[k1]);
        if k2 < n {
            assert(r.stack[k2] == st.stack[k2]);
        } else {
            assert(r.stack[k2].id is None);
        }
    }
    assert forall|j: int| 0 <= j < r.slots.len() && r.slots[j] is Some implies {
        let sc = (#[trigger] r.slots[j])->0;
        match sc.parent {
            Some(i) => {
                &&& (i as int) < r.slots.len()
                &&& (r.slots[i as int] is Some ==> spec_contains_handle(
                    r.slots[i as int]->0.children,
                    j as usize,
                ))
                &&& (r.slots[i as int] is None ==> exists|k: int|
                    0 <= k < r.stack.len() && (#[trigger] r.stack[k]).id == Some(i)
                        && spec_contains_handle(r.stack[k].children, j as usize))
            },
            None => false,
        }
    } by {
        let sc = r.slots[j]->0;
        match sc.parent {
            Some(i) => {
                if r.slots[i as int] is None {
                    let kw = choose|k: int|
                        0 <= k < st.stack.len() && (#[trigger] st.stack[k]).id == Some(i)
                            && spec_contains_handle(st.stack[k].children, j as usize);
                    assert(r.stack[kw] == st.stack[kw]);
                    assert(r.stack[kw].id == Some(i) && spec_contains_handle(
                        r.stack[kw].children,
                        j as usize,
                    ));
                }
            },
            None => {},
        }
    }
}


proof fn lemma_linked_finish(st: BState)
    requires
        linked_state(st),
        st.stack.len() >= 2,
        spec_finish_fn(st).slots.len() <= usize::MAX,
    ensures
        linked_state(spec_finish_fn(st)),
{
    let sc = st.stack.last();
    let rest = st.stack.drop_last();
    let last = st.stack.len() - 1;
    assert(sc == st.stack[last]);
    assert forall|k: int| 0 <= k < rest.len() implies #[trigger] rest[k] == st.stack[k] by {}
    if !spec_keep(sc) {
        let r = BState { stack: rest, ..st };
        assert(sc.id is None);
        assert forall|j: int|
            0 <= j < r.slots.len() && r.slots[j] is None implies exists|k: int|
                0 <= k < r.stack.len() && (#[trigger] r.stack[k]).id == Some(j as usize) by {
            let kw = choose|k: int|
                0 <= k < st.stack.len() && (#[trigger] st.stack[k]).id == Some(j as usize);
            assert(kw != last);
            assert(r.stack[kw].id == Some(j as usize));
        }
        assert forall|j: int| 0 <= j < r.slots.len() && r.slots[j] is Some implies {
            let s2 = (#[trigger] r.slots[j])->0;
            match s2.parent {
                Some(i) => {
                    &&& (i as int) < r.slots.len()
                    &&& (r.slots[i as int] is Some ==> spec_contains_handle(
                        r.slots[i as int]->0.children,
                        j as usize,
                    ))
                    &&& (r.slots[i as int] is None ==> exists|k: int|
                        0 <= k < r.stack.len() && (#[trigger] r.stack[k]).id == Some(i)
                            && spec_contains_handle(r.stack[k].children, j as usize))
                },
                None => false,
            }
        } by {
            let s2 = r.slots[j]->0;
            match s2.parent {
                Some(i) => {
                    if r.slots[i as int] is None {
                        let kw = choose|k: int|
                            0 <= k < st.stack.len() && (#[trigger] st.stack[k]).id == Some(i)
                                && spec_contains_handle(st.stack[k].children, j as usize);
                        assert(kw != last);
                        assert(r.stack[kw].id == Some(i) && spec_contains_handle(
                            r.stack[kw].children,
                            j as usize,
                        ));
                    }
                },
                None => {},
            }
        }
    } else {
        let (rest2, slots2) = spec_reserve_top(rest, st.slots);
        let pid = rest2.last().id;
        let sc2 = SpecScope { parent: pid, ..sc };
        let (slots3, sid) = spec_place(slots2, sc2);
        let parent2 = SpecScope { children: rest2.last().children.push(sid), ..rest2.last() };
        let r = BState { stack: rest2.update(rest2.len() - 1, parent2), slots: slots3, bad: st.bad };
        assert(spec_finish_fn(st) == r);
        assert(slots3.len() <= usize::MAX);
        assert(slots2.len() <= slots3.len());
        assert(st.slots.len() <= slots2.len());
        let plast = rest.len() - 1;
        let parent0 = rest[plast];
        assert(parent0 == st.stack[plast]);
        let l0 = st.slots.len() as int;

        // How the reservation reshaped parent and slots.
        let reserved_new = !(parent0.id is Some);
        let ip = rest2.last().id->0 as int;
        assert(rest2.last().id is Some);
        if reserved_new {
            assert(rest2 == rest.update(plast, SpecScope { id: Some(l0 as usize), ..parent0 }));
            assert(ip == l0);
            assert(slots2 == st.slots.push(None));
            assert(parent0.children.len() == 0);
        } else {
            assert(rest2 == rest);
            assert(slots2 == st.slots);
            assert(ip < l0 && st.slots[ip] is None);
        }
        assert forall|k: int| 0 <= k < plast implies #[trigger] rest2[k] == st.stack[k] by {}
        assert(rest2.last() == rest2[plast]);
        assert(slots2.len() == l0 + if reserved_new { 1int } else { 0int });
        // Old slots keep their contents through the reservation.
        assert forall|j: int| 0 <= j < l0 implies #[trigger] slots2[j] == st.slots[j] by {}

        // Where the popped scope lands.
        let fresh = !(sc.id is Some);
        let jj = if fresh { slots2.len() as int } else { sc.id->0 as int };
        if fresh {
            assert(sc.children.len() == 0);
            assert(slots3 == slots2.push(Some(sc2)));
            assert(sid == slots2.len() as usize);
        } else {
            assert(jj < l0 && st.slots[jj] is None);
            assert(slots2[jj] is None);
            assert(jj < slots2.len());
            assert(slots3 == slots2.update(jj, Some(sc2)));
            assert(sid == sc.id->0);
        }
        assert(sid as int == jj);
        assert(slots3.len() == slots2.len() + if fresh { 1int } else { 0int });
        assert(slots3[jj] == Some(sc2));
        assert forall|j: int| 0 <= j < slots2.len() && j != jj implies #[trigger] slots3[j]
            == slots2[j] by {}
        // The new entry of the parent's children was no earlier entry.
        assert(st.slots[jj] is None || jj >= l0);

        // The identities of parent and popped scope differ from each other
        // and from every other stack identity.
        assert(ip != jj) by {
            if !reserved_new && !fresh {
                assert(st.stack[plast].id == Some(ip as usize));
                assert(st.stack[last].id == Some(jj as usize));
            }
        }

        // Stored-scope properties.
        assert forall|j: int| 0 <= j < r.slots.len() && r.slots[j] is Some implies {
            let s2 = (#[trigger] r.slots[j])->0;
            &&& (s2.id is Some ==> s2.id == Some(j as usize))
            &&& (s2.children.len() > 0 ==> s2.id is Some)
            &&& spec_owns(s2, r.slots)
            &&& spec_no_dup(s2.children)
        } by {
            let s2 = r.slots[j]->0;
            if j == jj {
                assert(s2 == sc2);
                assert(sc2.id == sc.id && sc2.children == sc.children);
                assert(spec_owns(sc, st.slots));
                assert(spec_owns(s2, r.slots)) by {
                    assert forall|n: int| 0 <= n < s2.children.len() implies {
                        let h = (#[trigger] s2.children[n]) as int;
                        &&& 0 <= h < r.slots.len()
                        &&& r.slots[h] is Some
                        &&& r.slots[h]->0.parent == s2.id
                    } by {
                        assert(sc.children[n] == s2.children[n]);
                        let h = s2.children[n] as int;
                        assert(st.slots[h] is Some);
                        assert(h != jj && h < l0);
                        assert(r.slots[h] == st.slots[h]);
                    }
                }
            } else {
                assert(j < slots2.len());
                if j < l0 {
                    assert(r.slots[j] == st.slots[j]);
                    assert(s2 == st.slots[j]->0);
                    assert(spec_owns(s2, st.slots));
                    assert(spec_owns(s2, r.slots)) by {
                        assert forall|n: int| 0 <= n < s2.children.len() implies {
                            let h = (#[trigger] s2.children[n]) as int;
                            &&& 0 <= h < r.slots.len()
                            &&& r.slots[h] is Some
                            &&& r.slots[h]->0.parent == s2.id
                        } by {
                            let h = s2.children[n] as int;
                            assert(st.slots[h] is Some);
                            assert(h != jj && h < l0);
                            assert(r.slots[h] == st.slots[h]);
                        }
                    }
                } else {
                    assert(slots2[j] is None);
                }
            }
        }

        // Stack-scope properties.
        assert forall|k: int| 0 <= k < r.stack.len() implies {
            let s2 = #[trigger] r.stack[k];
            &&& (s2.children.len() > 0 ==> s2.id is Some)
            &&& spec_owns(s2, r.slots)
            &&& spec_no_dup(s2.children)
        } by {
            let s2 = r.stack[k];
            if k < plast {
                assert(s2 == st.stack[k]);
                assert(spec_owns(st.stack[k], st.slots));
                assert(spec_owns(s2, r.slots)) by {
                    assert forall|n: int| 0 <= n < s2.children.len() implies {
                        let h = (#[trigger] s2.children[n]) as int;
                        &&& 0 <= h < r.slots.len()
                        &&& r.slots[h] is Some
                        &&& r.slots[h]->0.parent == s2.id
                    } by {
                        let h = s2.children[n] as int;
                        assert(st.slots[h] is Some);
                        assert(h != jj && h < l0);
                        assert(r.slots[h] == st.slots[h]);
                    }
                }
            } else {
                assert(s2 == parent2);
                assert(parent2.children == rest2.last().children.push(sid));
                assert(spec_owns(parent0, st.slots));
                assert(rest2.last().children == parent0.children);
                assert(spec_no_dup(s2.children)) by {
                    assert forall|n1: int, n2: int|
                        0 <= n1 < n2 < s2.children.len() implies #[trigger] s2.children[n1]
                            != #[trigger] s2.children[n2] by {
                        if n2 < parent0.children.len() {
                            assert(s2.children[n1] == parent0.children[n1]);
                            assert(s2.children[n2] == parent0.children[n2]);
                        } else {
                            assert(s2.children[n2] == sid);
                            assert(s2.children[n1] == parent0.children[n1]);
                            let h = parent0.children[n1] as int;
                            assert(st.slots[h] is Some);
                            assert(h != jj);
                        }
                    }
                }
                assert(spec_owns(s2, r.slots)) by {
                    assert forall|n: int| 0 <= n < s2.children.len() implies {
                        let h = (#[trigger] s2.children[n]) as int;
                        &&& 0 <= h < r.slots.len()
                        &&& r.slots[h] is Some
                        &&& r.slots[h]->0.parent == s2.id
                    } by {
                        if n < parent0.children.len() {
                            assert(s2.children[n] == parent0.children[n]);
                            let h = parent0.children[n] as int;
                            assert(st.slots[h] is Some);
                            assert(st.slots[h]->0.parent == parent0.id);
                            assert(h != jj && h < l0);
                            assert(r.slots[h] == st.slots[h]);
                            assert(s2.id == parent0.id);
                        } else {
                            assert(s2.children[n] == sid);
                            assert(r.slots[jj] == Some(sc2));
                            assert(sc2.parent == pid);
                            assert(s2.id == rest2.last().id);
                        }
                    }
                }
            }
        }

        // Reserved slots stay owned by their stack scopes.
        assert forall|k: int| 0 <= k < r.stack.len() implies match (#[trigger] r.stack[k]).id {
            Some(i) => i < r.slots.len() && r.slots[i as int] is None,
            None => true,
        } by {
            let s2 = r.stack[k];
            if k < plast {
                assert(s2 == st.stack[k]);
                match s2.id {
                    Some(i) => {
                        assert(st.slots[i as int] is None);
                        assert((i as int) != jj) by {
                            if !fresh {
                                assert(st.stack[k].id is Some);
                                assert(st.stack[last].id == Some(jj as usize));
                            }
                        }
                        assert((i as int) < l0);
                        assert(r.slots[i as int] == st.slots[i as int]);
                    },
                    None => {},
                }
            } else {
                assert(s2.id == rest2.last().id);
                assert(r.slots[ip] is None) by {
                    if reserved_new {
                        assert(slots2[ip] is None);
                        assert(ip != jj);
                    } else {
                        assert(st.slots[ip] is None);
                        assert(ip != jj);
                        assert(r.slots[ip] == st.slots[ip]);
                    }
                }
            }
        }

        // Every empty slot still has a stack owner.
        assert forall|j: int|
            0 <= j < r.slots.len() && r.slots[j] is None implies exists|k: int|
                0 <= k < r.stack.len() && (#[trigger] r.stack[k]).id == Some(j as usize) by {
            if j == ip {
                assert(r.stack[plast].id == Some(j as usize));
            } else {
                assert(j < l0 && st.slots[j] is None);
                let kw = choose|k: int|
                    0 <= k < st.stack.len() && (#[trigger] st.stack[k]).id == Some(j as usize);
                assert(kw != last) by {
                    if kw == last {
                        assert(sc.id == Some(j as usize));
                        assert(jj == j);
                    }
                }
                assert(kw != plast) by {
                    if kw == plast {
                        assert(parent0.id == Some(j as usize));
                        assert(!reserved_new);
                        assert(ip == j);
                    }
                }
                assert(r.stack[kw].id == Some(j as usize));
            }
        }

        // Stack identities stay pairwise distinct.
        assert forall|k1: int, k2: int|
            0 <= k1 < k2 < r.stack.len() && (#[trigger] r.stack[k1]).id is Some && (
            #[trigger] r.stack[k2]).id is Some implies r.stack[k1].id != r.stack[k2].id by {
            assert(r.stack[k1] == st.stack[k1]);
            if k2 < plast {
                assert(r.stack[k2] == st.stack[k2]);
            } else {
                assert(r.stack[k2].id == rest2.last().id);
                if reserved_new {
                    assert(st.stack[k1].id->0 < l0 as usize);
                    assert(ip == l0);
                } else {
                    assert(r.stack[k2].id == st.stack[plast].id);
                }
            }
        }

        // Every stored scope's parent still lists it.
        assert forall|j: int| 0 <= j < r.slots.len() && r.slots[j] is Some implies {
            let s2 = (#[trigger] r.slots[j])->0;
            match s2.parent {
                Some(i) => {
                    &&& (i as int) < r.slots.len()
                    &&& (r.slots[i as int] is Some ==> spec_contains_handle(
                        r.slots[i as int]->0.children,
                        j as usize,
                    ))
                    &&& (r.slots[i as int] is None ==> exists|k: int|
                        0 <= k < r.stack.len() && (#[trigger] r.stack[k]).id == Some(i)
                            && spec_contains_handle(r.stack[k].children, j as usize))
                },
                None => false,
            }
        } by {
            let s2 = r.slots[j]->0;
            if j == jj {
                assert(s2 == sc2);
                assert(s2.parent == Some(ip as usize));
                assert(r.slots[ip] is None);
                assert(r.stack[plast].id == Some(ip as usize));
                assert(spec_contains_handle(r.stack[plast].children, j as usize)) by {
                    assert(parent2.children[parent2.children.len() - 1] == sid);
                }
                assert(exists|k: int|
                    0 <= k < r.stack.len() && (#[trigger] r.stack[k]).id == Some(ip as usize)
                        && spec_contains_handle(r.stack[k].children, j as usize)) by {
                    assert(r.stack[plast].id == Some(ip as usize) && spec_contains_handle(
                        r.stack[plast].children,
                        j as usize,
                    ));
                }
            } else {
                assert(j < l0 && st.slots[j] is Some);
                assert(s2 == st.slots[j]->0);
                match s2.parent {
                    Some(i) => {
                        assert((i as int) < l0);
                        if st.slots[i as int] is Some {
                            assert((i as int) != jj);
                            assert(r.slots[i as int] == st.slots[i as int]);
                            assert(spec_contains_handle(r.slots[i as int]->0.children, j as usize));
                        } else {
                            let kw = choose|k: int|
                                0 <= k < st.stack.len() && (#[trigger] st.stack[k]).id == Some(i)
                                    && spec_contains_handle(st.stack[k].children, j as usize);
                            if kw == last {
                                assert(sc.id == Some(i));
                                assert((i as int) == jj);
                                assert(r.slots[jj] == Some(sc2));
                                assert(sc2.children == sc.children);
                                assert(spec_contains_handle(
                                    r.slots[i as int]->0.children,
                                    j as usize,
                                ));
                            } else if kw == plast {
                                assert(parent0.id == Some(i));
                                assert(!reserved_new) by {
                                    if reserved_new {
                                        assert(parent0.id is None);
                                    }
                                }
                                assert(ip == i as int);
                                assert(r.slots[i as int] is None);
                                assert(spec_contains_handle(parent2.children, j as usize)) by {
                                    let nw = choose|n: int|
                                        0 <= n < parent0.children.len() && parent0.children[n]
                                            == (j as usize);
                                    assert(parent2.children[nw] == (j as usize));
                                }
                                assert(exists|k: int|
                                    0 <= k < r.stack.len() && (#[trigger] r.stack[k]).id == Some(i)
                                        && spec_contains_handle(
                                        r.stack[k].children,
                                        j as usize,
                                    )) by {
                                    assert(r.stack[plast].id == Some(i) && spec_contains_handle(
                                        r.stack[plast].children,
                                        j as usize,
                                    ));
                                }
                            } else {
                                assert((i as int) != jj) by {
                                    if (i as int) == jj {
                                        assert(st.stack[kw].id == Some(jj as usize));
                                        assert(!fresh);
                                        assert(st.stack[last].id == Some(jj as usize));
                                    }
                                }
                                assert((i as int) != ip || reserved_new == false) by {}
                                assert(r.slots[i as int] is None) by {
                                    assert(st.slots[i as int] is None);
                                    assert((i as int) < l0);
                                    assert(r.slots[i as int] == st.slots[i as int]);
                                }
                                assert(r.stack[kw] == st.stack[kw]);
                                assert(exists|k: int|
                                    0 <= k < r.stack.len() && (#[trigger] r.stack[k]).id == Some(i)
                                        && spec_contains_handle(
                                        r.stack[k].children,
                                        j as usize,
                                    )) by {
                                    assert(r.stack[kw].id == Some(i) && spec_contains_handle(
                                        r.stack[kw].children,
                                        j as usize,
                                    ));
                                }
                            }
                        }
                    },
                    None => {},
                }
            }
        }
    }
}


proof fn lemma_slots_len_finish(st: BState)
    ensures
        spec_finish_fn(st).slots.len() >= st.slots.len(),
{
}

proof fn lemma_slots_len_stmt(st: BState, s: Stmt)
    ensures
        sv_stmt(st, s).slots.len() >= st.slots.len(),
    decreases s,
{
    if st.bad {
    } else {
        match s.kind {
            StmtKind::FnDecl(f) => {
                lemma_slots_len_fn(st, f);
            },
            StmtKind::Block(ss) => {
                lemma_slots_len_stmts(st, ss@);
            },
            _ => {},
        }
    }
}

proof fn lemma_slots_len_fn(st: BState, f: FnDecl)
    ensures
        sv_fn(st, f).slots.len() >= st.slots.len(),
    decreases f,
{
    let st1 = BState { stack: st.stack.push(spec_new_scope(spec_param_idents(f.params@))), ..st };
    lemma_slots_len_stmts(st1, f.body@);
    let st2 = sv_stmts(st1, f.body@);
    if !st2.bad {
        lemma_slots_len_finish(st2);
    }
}

proof fn lemma_slots_len_stmts(st: BState, ss: Seq<Stmt>)
    ensures
        sv_stmts(st, ss).slots.len() >= st.slots.len(),
    decreases ss,
{
    if ss.len() == 0 {
    } else {
        lemma_slots_len_stmts(st, ss.drop_last());
        lemma_slots_len_stmt(sv_stmts(st, ss.drop_last()), ss.last());
    }
}

proof fn lemma_linked_declarators(st: BState, ds: Seq<VarDeclarator>)
    requires
        linked_state(st),
    ensures
        linked_state(BState { stack: sv_declarators(st.stack, ds), ..st }),
    decreases ds,
{
    if ds.len() == 0 {
    } else {
        lemma_linked_declarators(st, ds.drop_last());
        let mid = BState { stack: sv_declarators(st.stack, ds.drop_last()), ..st };
        if mid.stack.len() > 0 {
            match ds.last().name {
                Pat::Ident(n) => {
                    let top = mid.stack.last();
                    lemma_linked_update_top(
                        mid,
                        SpecScope { var_decls: top.var_decls.push(n), ..top },
                    );
                },
                _ => {},
            }
        }
    }
}

proof fn lemma_linked_stmt(st: BState, s: Stmt)
    requires
        linked_state(st),
        st.stack.len() >= 1,
        sv_stmt(st, s).slots.len() <= usize::MAX,
    ensures
        linked_state(sv_stmt(st, s)),
    decreases s,
{
    if st.bad {
    } else {
        match s.kind {
            StmtKind::FnDecl(f) => {
                lemma_linked_fn(st, f);
            },
            StmtKind::Labeled(l) => {
                if l.label@ == "$"@ {
                    match (*l.body).kind {
                        StmtKind::Expr(e) => {
                            let top = st.stack.last();
                            lemma_linked_update_top(
                                st,
                                SpecScope {
                                    reactive: top.reactive.push(spec_signals_expr(*e)),
                                    ..top
                                },
                            );
                        },
                        _ => {},
                    }
                }
            },
            StmtKind::VarDecl(ds) => {
                lemma_linked_declarators(st, ds@);
            },
            StmtKind::Block(ss) => {
                lemma_linked_stmts(st, ss@);
            },
            _ => {},
        }
    }
}

proof fn lemma_linked_fn(st: BState, f: FnDecl)
    requires
        linked_state(st),
        st.stack.len() >= 1,
        !st.bad,
        sv_fn(st, f).slots.len() <= usize::MAX,
    ensures
        linked_state(sv_fn(st, f)),
    decreases f,
{
    let st1 = BState { stack: st.stack.push(spec_new_scope(spec_param_idents(f.params@))), ..st };
    lemma_linked_push(st, spec_param_idents(f.params@));
    let st2 = sv_stmts(st1, f.body@);
    if st2.bad {
        lemma_linked_stmts(st1, f.body@);
    } else {
        lemma_slots_len_finish(st2);
        lemma_linked_stmts(st1, f.body@);
        lemma_len_stmts(st1, f.body@);
        assert(st2.stack.len() == st.stack.len() + 1);
        lemma_linked_finish(st2);
    }
}

proof fn lemma_linked_stmts(st: BState, ss: Seq<Stmt>)
    requires
        linked_state(st),
        st.stack.len() >= 1,
        sv_stmts(st, ss).slots.len() <= usize::MAX,
    ensures
        linked_state(sv_stmts(st, ss)),
    decreases ss,
{
    if ss.len() == 0 {
    } else {
        let mid = sv_stmts(st, ss.drop_last());
        lemma_slots_len_stmt(mid, ss.last());
        lemma_linked_stmts(st, ss.drop_last());
        if mid.bad {
        } else {
            lemma_len_stmts(st, ss.drop_last());
            lemma_linked_stmt(mid, ss.last());
        }
    }
}

proof fn lemma_linked_items(st: BState, items: Seq<ModuleItem>)
    requires
        linked_state(st),
        st.stack.len() >= 1,
        sv_items(st, items).slots.len() <= usize::MAX,
    ensures
        linked_state(sv_items(st, items)),
    decreases items,
{
    if items.len() == 0 {
    } else {
        let mid = sv_items(st, items.drop_last());
        match items.last() {
            ModuleItem::Stmt(s) => {
                lemma_slots_len_stmt(mid, s);
                lemma_linked_items(st, items.drop_last());
                if mid.bad {
                } else {
                    lemma_len_items(st, items.drop_last());
                    lemma_linked_stmt(mid, s);
                }
            },
            _ => {
                lemma_linked_items(st, items.drop_last());
            },
        }
    }
}

/// The graph's handle bookkeeping, with the root standing above the arena:
/// stored scopes sit at the slot their identity names; a scope's children
/// handles index filled slots whose scopes point back at it, and every
/// stored scope's parent lists its handle in return; no children list
/// repeats a handle; the one slot the root may have reserved stays empty.
pub open spec fn graph_linked(root: SpecScope, slots: Seq<Option<SpecScope>>) -> bool {
    linked_state(BState { stack: seq![root], slots, bad: false })
}

/// Law: the walk's handle bookkeeping is sound — in a finished build (one
/// whose arena fits addressable memory), children and parent handles agree
/// in both directions and no children list repeats a handle.
pub proof fn lemma_graph_links(items: Seq<ModuleItem>)
    requires
        spec_build(items).slots.len() <= usize::MAX,
    ensures
        linked_state(spec_build(items)),
{
    let init = BState {
        stack: seq![spec_new_scope(Seq::empty())],
        slots: Seq::empty(),
        bad: false,
    };
    assert(linked_state(init)) by {
        assert(forall|k: int| 0 <= k < init.stack.len() ==> #[trigger] init.stack[k]
            == spec_new_scope(Seq::empty()));
    }
    lemma_linked_items(init, items);
}

/// A handle never stands in two children lists of one graph.
pub open spec fn spec_slot_owns(slots: Seq<Option<SpecScope>>, j: int, h: usize) -> bool {
    0 <= j < slots.len() && slots[j] is Some && spec_contains_handle(slots[j]->0.children, h)
}

/// Law: every handle has at most one owner — two stored scopes never list
/// the same child, and the root and a stored scope never share one either.
pub proof fn lemma_handle_has_one_owner(
    root: SpecScope,
    slots: Seq<Option<SpecScope>>,
    h: usize,
)
    requires
        graph_linked(root, slots),
        slots.len() <= usize::MAX,
    ensures
        forall|j1: int, j2: int|
            spec_slot_owns(slots, j1, h) && spec_slot_owns(slots, j2, h) ==> j1 == j2,
        spec_contains_handle(root.children, h) ==> forall|j: int| !spec_slot_owns(slots, j, h),
{
    let st = BState { stack: seq![root], slots, bad: false };
    assert(st.slots == slots);
    assert forall|j1: int, j2: int|
        spec_slot_owns(slots, j1, h) && spec_slot_owns(slots, j2, h) implies j1 == j2 by {
        assert(st.slots[j1] is Some);
        assert(st.slots[j2] is Some);
        let sc1 = slots[j1]->0;
        let sc2 = slots[j2]->0;
        assert(spec_owns(sc1, slots) && spec_owns(sc2, slots));
        let n1 = choose|n: int| 0 <= n < sc1.children.len() && sc1.children[n] == h;
        let n2 = choose|n: int| 0 <= n < sc2.children.len() && sc2.children[n] == h;
        assert(slots[h as int]->0.parent == sc1.id);
        assert(slots[h as int]->0.parent == sc2.id);
        assert(sc1.id == Some(j1 as usize));
        assert(sc2.id == Some(j2 as usize));
    }
    if spec_contains_handle(root.children, h) {
        assert forall|j: int| !spec_slot_owns(slots, j, h) by {
            if spec_slot_owns(slots, j, h) {
                assert(st.slots[j] is Some);
                assert(st.stack[0] == root);
                assert(spec_owns(root, slots));
                let n0 = choose|n: int| 0 <= n < root.children.len() && root.children[n] == h;
                assert(slots[h as int]->0.parent == root.id);
                let scj = slots[j]->0;
                assert(spec_owns(scj, slots));
                let nj = choose|n: int| 0 <= n < scj.children.len() && scj.children[n] == h;
                assert(slots[h as int]->0.parent == scj.id);
                assert(scj.id == Some(j as usize));
                assert(root.id == Some(j as usize));
                assert(slots[j] is None);
            }
        }
    }
}


/// The statement reaches a reactive statement: directly, through a block,
/// or through a nested function declaration. A label other than the
/// reactive marker hides its body from the walk and counts for nothing.
pub open spec fn spec_stmt_live(s: Stmt) -> bool
    decreases s,
{
    match s.kind {
        StmtKind::Labeled(l) => l.label@ == "$"@,
        StmtKind::Block(ss) => spec_stmts_live(ss@),
        StmtKind::FnDecl(f) => spec_stmts_live(f.body@),
        _ => false,
    }
}

/// Some statement of the sequence reaches a reactive statement.
pub open spec fn spec_stmts_live(ss: Seq<Stmt>) -> bool
    decreases ss,
{
    if ss.len() == 0 {
        false
    } else {
        spec_stmts_live(ss.drop_last()) || spec_stmt_live(ss.last())
    }
}

/// What one step of the walk leaves alone: the frames under the top, the
/// stack depth, and — on the top scope — the identity once assigned, while
/// its reactive statements and children only ever grow.
pub open spec fn step_preserves(st: BState, r: BState) -> bool {
    &&& r.stack.len() == st.stack.len()
    &&& (forall|k: int| 0 <= k < st.stack.len() - 1 ==> #[trigger] r.stack[k] == st.stack[k])
    &&& r.stack.last().reactive.len() >= st.stack.last().reactive.len()
    &&& r.stack.last().children.len() >= st.stack.last().children.len()
    &&& (st.stack.last().id is Some ==> r.stack.last().id == st.stack.last().id)
}

proof fn lemma_step_decls(stack: Seq<SpecScope>, ds: Seq<VarDeclarator>)
    requires
        stack.len() >= 1,
    ensures
        sv_declarators(stack, ds).len() == stack.len(),
        forall|k: int|
            0 <= k < stack.len() - 1 ==> #[trigger] sv_declarators(stack, ds)[k] == stack[k],
        sv_declarators(stack, ds).last().reactive == stack.last().reactive,
        sv_declarators(stack, ds).last().children == stack.last().children,
        sv_declarators(stack, ds).last().id == stack.last().id,
    decreases ds,
{
    if ds.len() == 0 {
    } else {
        lemma_step_decls(stack, ds.drop_last());
    }
}

proof fn lemma_step_stmt(st: BState, s: Stmt)
    requires
        st.stack.len() >= 1,
        !st.bad,
    ensures
        sv_stmt(st, s).bad || step_preserves(st, sv_stmt(st, s)),
    decreases s,
{
    match s.kind {
        StmtKind::FnDecl(f) => {
            lemma_step_fn(st, f);
        },
        StmtKind::Labeled(l) => {
            if l.label@ == "$"@ {
                match (*l.body).kind {
                    StmtKind::Expr(_) => {
                        assert(sv_labeled(st, l).stack.last().reactive.len()
                            == st.stack.last().reactive.len() + 1);
                    },
                    _ => {},
                }
            }
        },
        StmtKind::VarDecl(ds) => {
            lemma_step_decls(st.stack, ds@);
        },
        StmtKind::Block(ss) => {
            lemma_step_stmts(st, ss@);
        },
        _ => {},
    }
}

proof fn lemma_step_fn(st: BState, f: FnDecl)
    requires
        st.stack.len() >= 1,
        !st.bad,
    ensures
        sv_fn(st, f).bad || step_preserves(st, sv_fn(st, f)),
    decreases f,
{
    let st1 = BState { stack: st.stack.push(spec_new_scope(spec_param_idents(f.params@))), ..st };
    lemma_step_stmts(st1, f.body@);
    let st2 = sv_stmts(st1, f.body@);
    if !st2.bad {
        assert(st2.stack.len() == st.stack.len() + 1);
        assert(st2.stack[st.stack.len() - 1] == st.stack.last()) by {
            assert(st1.stack[st.stack.len() - 1] == st.stack.last());
        }
        let r = spec_finish_fn(st2);
        let rest = st2.stack.drop_last();
        assert(rest.last() == st.stack.last());
        assert forall|k: int| 0 <= k < st.stack.len() - 1 implies #[trigger] rest[k]
            == st.stack[k] by {
            assert(st2.stack[k] == st1.stack[k]);
            assert(st1.stack[k] == st.stack[k]);
        }
        if !spec_keep(st2.stack.last()) {
            assert(r.stack == rest);
        } else {
            let (rest2, slots2) = spec_reserve_top(rest, st2.slots);
            assert(rest2.last().reactive == rest.last().reactive);
            assert(rest2.last().children == rest.last().children);
            assert(rest.last().id is Some ==> rest2.last().id == rest.last().id);
            assert forall|k: int| 0 <= k < st.stack.len() - 1 implies #[trigger] rest2[k]
                == rest[k] by {}
            assert(r.stack.last().children.len() == rest2.last().children.len() + 1);
            assert(r.stack.last().reactive == rest2.last().reactive);
            assert(r.stack.last().id == rest2.last().id);
            assert forall|k: int| 0 <= k < st.stack.len() - 1 implies #[trigger] r.stack[k]
                == rest2[k] by {}
        }
    }
}

proof fn lemma_step_stmts(st: BState, ss: Seq<Stmt>)
    requires
        st.stack.len() >= 1,
        !st.bad,
    ensures
        sv_stmts(st, ss).bad || step_preserves(st, sv_stmts(st, ss)),
    decreases ss,
{
    if ss.len() == 0 {
    } else {
        lemma_step_stmts(st, ss.drop_last());
        let mid = sv_stmts(st, ss.drop_last());
        if !mid.bad {
            lemma_step_stmt(mid, ss.last());
        }
    }
}

proof fn lemma_live_stmt(st: BState, s: Stmt)
    requires
        st.stack.len() >= 1,
        !st.bad,
        !sv_stmt(st, s).bad,
        spec_stmt_live(s),
    ensures
        spec_keep(sv_stmt(st, s).stack.last()),
    decreases s,
{
    match s.kind {
        StmtKind::Labeled(l) => {
            match (*l.body).kind {
                StmtKind::Expr(_) => {
                    assert(sv_labeled(st, l).stack.last().reactive.len() > 0);
                },
                _ => {
                    assert(sv_labeled(st, l).bad);
                },
            }
        },
        StmtKind::Block(ss) => {
            lemma_live_stmts(st, ss@);
        },
        StmtKind::FnDecl(f) => {
            lemma_live_fn_retained(st, f);
        },
        _ => {},
    }
}

proof fn lemma_live_stmts(st: BState, ss: Seq<Stmt>)
    requires
        st.stack.len() >= 1,
        !st.bad,
        !sv_stmts(st, ss).bad,
        spec_stmts_live(ss),
    ensures
        spec_keep(sv_stmts(st, ss).stack.last()),
    decreases ss,
{
    let mid = sv_stmts(st, ss.drop_last());
    assert(!mid.bad) by {
        if mid.bad {
            assert(sv_stmt(mid, ss.last()) == mid);
        }
    }
    if spec_stmt_live(ss.last()) {
        lemma_len_stmts(st, ss.drop_last());
        lemma_live_stmt(mid, ss.last());
    } else {
        lemma_len_stmts(st, ss.drop_last());
        lemma_live_stmts(st, ss.drop_last());
        lemma_step_stmt(mid, ss.last());
    }
}

/// Law: retention is complete. A function whose body reaches a reactive
/// statement — however deeply through blocks and nested functions — is never
/// pruned: leaving it adds exactly one child scope to the enclosing scope.
/// Beside the pruning law, this pins the retained tree: for a chain of
/// nested functions whose innermost holds the only reactive statement, every
/// link of the chain adds its one scope, and nothing inert is ever stored.
pub proof fn lemma_live_fn_retained(st: BState, f: FnDecl)
    requires
        st.stack.len() >= 1,
        !st.bad,
        !sv_fn(st, f).bad,
        spec_stmts_live(f.body@),
    ensures
        spec_keep(sv_fn(st, f).stack.last()),
        sv_fn(st, f).stack.last().children.len() == st.stack.last().children.len() + 1,
    decreases f,
{
    let st1 = BState { stack: st.stack.push(spec_new_scope(spec_param_idents(f.params@))), ..st };
    let st2 = sv_stmts(st1, f.body@);
    assert(!st2.bad);
    lemma_len_stmts(st1, f.body@);
    assert(st2.stack.len() == st.stack.len() + 1);
    lemma_live_stmts(st1, f.body@);
    assert(spec_keep(st2.stack.last()));
    lemma_step_stmts(st1, f.body@);
    assert(st2.stack[st.stack.len() - 1] == st.stack.last()) by {
        assert(st1.stack[st.stack.len() - 1] == st.stack.last());
    }
    let rest = st2.stack.drop_last();
    assert(rest.last() == st.stack.last());
    let (rest2, slots2) = spec_reserve_top(rest, st2.slots);
    assert(rest2.last().children == rest.last().children);
    let r = spec_finish_fn(st2);
    assert(r.stack.last().children.len() == rest2.last().children.len() + 1);
}

/// Every stored scope has reactive content of its own or a retained child.
pub open spec fn pruned_slots(slots: Seq<Option<SpecScope>>) -> bool {
    forall|i: int|
        0 <= i < slots.len() ==> match #[trigger] slots[i] {
            Some(sc) => sc.reactive.len() > 0 || sc.children.len() > 0,
            None => true,
        }
}

/// A stack scope that has been given an identity already has a retained
/// child: identities are only assigned when a child is registered.
pub open spec fn wf_stack(stack: Seq<SpecScope>) -> bool {
    forall|k: int|
        0 <= k < stack.len() ==> ((#[trigger] stack[k]).id is Some ==> stack[k].children.len()
            > 0)
}

/// Both invariants of the walk together.
pub open spec fn inv_build(st: BState) -> bool {
    pruned_slots(st.slots) && wf_stack(st.stack)
}

proof fn lemma_inv_decls(stack: Seq<SpecScope>, ds: Seq<VarDeclarator>)
    requires
        wf_stack(stack),
    ensures
        wf_stack(sv_declarators(stack, ds)),
    decreases ds,
{
    if ds.len() == 0 {
    } else {
        lemma_inv_decls(stack, ds.drop_last());
        let s1 = sv_declarators(stack, ds.drop_last());
        assert(wf_stack(sv_declarator(s1, ds.last()))) by {
            if s1.len() > 0 {
                match ds.last().name {
                    Pat::Ident(n) => {
                        let top = s1.last();
                        let s2 = spec_update_top(
                            s1,
                            SpecScope { var_decls: top.var_decls.push(n), ..top },
                        );
                        assert forall|k: int|
                            0 <= k < s2.len() && (#[trigger] s2[k]).id is Some implies s2[
                            k].children.len() > 0 by {
                            if k < s1.len() - 1 {
                                assert(s2[k] == s1[k]);
                            }
                        }
                    },
                    _ => {},
                }
            }
        }
    }
}

proof fn lemma_inv_stmt(st: BState, s: Stmt)
    requires
        inv_build(st),
    ensures
        inv_build(sv_stmt(st, s)),
    decreases s,
{
    if st.bad {
    } else {
        match s.kind {
            StmtKind::FnDecl(f) => {
                lemma_inv_fn(st, f);
            },
            StmtKind::Labeled(l) => {
                assert(inv_build(sv_labeled(st, l))) by {
                    if l.label@ == "$"@ {
                        match (*l.body).kind {
                            StmtKind::Expr(e) => {
                                if st.stack.len() > 0 {
                                    let top = st.stack.last();
                                    let top2 = SpecScope {
                                        reactive: top.reactive.push(spec_signals_expr(*e)),
                                        ..top
                                    };
                                    let s2 = spec_update_top(st.stack, top2);
                                    assert forall|k: int|
                                        0 <= k < s2.len() && (#[trigger] s2[k]).id
                                            is Some implies s2[k].children.len() > 0 by {
                                        if k < st.stack.len() - 1 {
                                            assert(s2[k] == st.stack[k]);
                                        }
                                    }
                                }
                            },
                            _ => {},
                        }
                    }
                }
            },
            StmtKind::VarDecl(ds) => {
                lemma_inv_decls(st.stack, ds@);
            },
            StmtKind::Block(ss) => {
                lemma_inv_stmts(st, ss@);
            },
            _ => {},
        }
    }
}

proof fn lemma_inv_fn(st: BState, f: FnDecl)
    requires
        inv_build(st),
        !st.bad,
    ensures
        inv_build(sv_fn(st, f)),
    decreases f,
{
    let st1 = BState { stack: st.stack.push(spec_new_scope(spec_param_idents(f.params@))), ..st };
    assert(wf_stack(st1.stack)) by {
        assert forall|k: int|
            0 <= k < st1.stack.len() && (#[trigger] st1.stack[k]).id is Some implies st1.stack[
        k].children.len() > 0 by {
            if k < st.stack.len() {
                assert(st1.stack[k] == st.stack[k]);
            }
        }
    }
    lemma_inv_stmts(st1, f.body@);
    let st2 = sv_stmts(st1, f.body@);
    if !st2.bad {
        assert(inv_build(spec_finish_fn(st2))) by {
            if st2.stack.len() > 0 {
                let sc = st2.stack.last();
                let rest = st2.stack.drop_last();
                assert(wf_stack(rest)) by {
                    assert forall|k: int|
                        0 <= k < rest.len() && (#[trigger] rest[k]).id is Some implies rest[
                    k].children.len() > 0 by {
                        assert(rest[k] == st2.stack[k]);
                    }
                }
                if spec_keep(sc) && rest.len() > 0 {
                    let (rest2, slots2) = spec_reserve_top(rest, st2.slots);
                    let pid = rest2.last().id;
                    let sc2 = SpecScope { parent: pid, ..sc };
                    let (slots3, sid) = spec_place(slots2, sc2);
                    let parent2 = SpecScope {
                        children: rest2.last().children.push(sid),
                        ..rest2.last()
                    };
                    let stack3 = rest2.update(rest2.len() - 1, parent2);
                    assert(sc2.reactive.len() > 0 || sc2.children.len() > 0) by {
                        if sc.id is Some {
                            assert(st2.stack[st2.stack.len() - 1] == sc);
                        }
                    }
                    assert(pruned_slots(slots3)) by {
                        assert(pruned_slots(slots2)) by {
                            if !(rest.last().id is Some) {
                                assert forall|i: int|
                                    0 <= i < slots2.len() implies match #[trigger] slots2[i] {
                                    Some(x) => x.reactive.len() > 0 || x.children.len() > 0,
                                    None => true,
                                } by {
                                    if i < st2.slots.len() {
                                        assert(slots2[i] == st2.slots[i]);
                                    }
                                }
                            }
                        }
                        assert forall|i: int|
                            0 <= i < slots3.len() implies match #[trigger] slots3[i] {
                            Some(x) => x.reactive.len() > 0 || x.children.len() > 0,
                            None => true,
                        } by {
                            match sc2.id {
                                Some(j) => {
                                    if j < slots2.len() {
                                        if i != j {
                                            assert(slots3[i] == slots2[i]);
                                        }
                                    } else {
                                        if i < slots2.len() {
                                            assert(slots3[i] == slots2[i]);
                                        }
                                    }
                                },
                                None => {
                                    if i < slots2.len() {
                                        assert(slots3[i] == slots2[i]);
                                    }
                                },
                            }
                        }
                    }
                    assert(wf_stack(stack3)) by {
                        assert forall|k: int|
                            0 <= k < stack3.len() && (#[trigger] stack3[k]).id is Some implies
                            stack3[k].children.len() > 0 by {
                            if k < rest2.len() - 1 {
                                assert(rest2[k] == rest[k]);
                                assert(stack3[k] == rest2[k]);
                            }
                        }
                    }
                }
            }
        }
    }
}

proof fn lemma_inv_stmts(st: BState, ss: Seq<Stmt>)
    requires
        inv_build(st),
    ensures
        inv_build(sv_stmts(st, ss)),
    decreases ss,
{
    if ss.len() == 0 {
    } else {
        lemma_inv_stmts(st, ss.drop_last());
        lemma_inv_stmt(sv_stmts(st, ss.drop_last()), ss.last());
    }
}

proof fn lemma_inv_items(st: BState, items: Seq<ModuleItem>)
    requires
        inv_build(st),
    ensures
        inv_build(sv_items(st, items)),
    decreases items,
{
    if items.len() == 0 {
    } else {
        lemma_inv_items(st, items.drop_last());
        match items.last() {
            ModuleItem::Stmt(s) => {
                lemma_inv_stmt(sv_items(st, items.drop_last()), s);
            },
            _ => {},
        }
    }
}

/// Law: scope pruning is sound. After a whole walk, every scope stored in
/// the arena has a reactive statement of its own or a retained child, so by
/// induction every retained scope leads to reactive content: an inert nested
/// function never leaves a scope in the graph.
pub proof fn lemma_scope_pruning(items: Seq<ModuleItem>)
    ensures
        pruned_slots(spec_build(items).slots),
        wf_stack(spec_build(items).stack),
{
    let init = BState {
        stack: seq![spec_new_scope(Seq::empty())],
        slots: Seq::empty(),
        bad: false,
    };
    assert(inv_build(init)) by {
        assert(forall|k: int|
            0 <= k < init.stack.len() ==> !((#[trigger] init.stack[k]).id is Some));
    }
    lemma_inv_items(init, items);
}

} // verus!
