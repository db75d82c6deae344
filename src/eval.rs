//! Template evaluation.
//!
//! What a template renders to is stated by `render_entries`, `render_entry`
//! and `render_items`: a recursive reading of the entry tree. `eval` computes
//! the same text without recursion, with an explicit stack of work items,
//! each of which stands for the rest of an entry list or the rest of a
//! collection to iterate.
use vstd::prelude::*;

use crate::context::{named, resolve, value_for_key_path_in_context, views, EvalContext, Globals, Helper};
use crate::data::{copy_nodes, HBData, HBNodeType, Node};
use crate::keypath::{parse_path, path_segments};
use crate::lexer::plain_text;
use crate::parse::{join_path, raw_only, HBEntry, HBExpression, HBValHolder, Template};
use crate::text::{escape_html, indent_text, push_all, push_escaped, push_indented, string_of};

verus! {

/// How deeply partials may nest; a deeper call fails instead of risking an
/// evaluation that never ends.
pub const MAX_PARTIAL_DEPTH: usize = 64;

/// Why evaluation stopped.
pub enum Fault {
    MissingPartial(Seq<char>),
    TooDeep,
}

/// What evaluation stands for at some point: the current context, the
/// enclosing contexts (innermost last), and the globals.
pub struct Env<'a> {
    pub ctx: Node<'a>,
    pub stack: Seq<Node<'a>>,
    pub globals: Globals<'a>,
}

/// The text (or the failure) that a piece of a template renders to, and the
/// number of work items its evaluation pops.
pub struct Rendered {
    pub out: Result<Seq<char>, Fault>,
    pub steps: nat,
}

pub open spec fn join_out(a: Result<Seq<char>, Fault>, b: Result<Seq<char>, Fault>) -> Result<Seq<char>, Fault> {
    match a {
        Err(e) => Err(e),
        Ok(x) => match b {
            Err(e) => Err(e),
            Ok(y) => Ok(x + y),
        },
    }
}

/// One piece rendered after another.
pub open spec fn then(a: Rendered, b: Rendered) -> Rendered {
    Rendered { out: join_out(a.out, b.out), steps: a.steps + b.steps }
}

pub open spec fn emit(t: Seq<char>) -> Rendered {
    Rendered { out: Ok(t), steps: 0 }
}

/// Text with `ind` at the start of each of its lines: before the text
/// (unless it is empty) and after each inner newline.
pub open spec fn indent_block(s: Seq<char>, ind: Seq<char>) -> Seq<char> {
    if s.len() == 0 {
        Seq::empty()
    } else {
        ind + indent_text(s, ind)
    }
}

/// Rendered text with `ind` at the start of each of its lines.
pub open spec fn indent_out(r: Result<Seq<char>, Fault>, ind: Seq<char>) -> Result<Seq<char>, Fault> {
    match r {
        Ok(s) => Ok(indent_block(s, ind)),
        Err(e) => Err(e),
    }
}

pub open spec fn tick(r: Rendered) -> Rendered {
    Rendered { out: r.out, steps: r.steps + 1 }
}

/// A collection that a block is rendered once per item of: a section over
/// an ordered collection, or `each` over an ordered or a keyed collection.
pub enum ItemSource<'a> {
    Section(Node<'a>),
    Values(Node<'a>),
    Pairs(Node<'a>),
}

impl<'a> ItemSource<'a> {
    pub open spec fn count(&self) -> nat {
        match self {
            ItemSource::Section(n) => n.spec_items().len(),
            ItemSource::Values(n) => n.spec_items().len(),
            ItemSource::Pairs(n) => n.spec_pairs().len(),
        }
    }
}

/// The environment of the `k`-th item: the item becomes the context; `each`
/// also sets `@index` (ordered) or `@key` (keyed), `@first` and `@last`.
pub open spec fn item_env<'a>(src: ItemSource<'a>, k: int, env: Env<'a>) -> Env<'a> {
    match src {
        ItemSource::Section(n) => Env {
            ctx: Node::Data(&n.spec_items()[k]),
            stack: env.stack,
            globals: env.globals,
        },
        ItemSource::Values(n) => Env {
            ctx: Node::Data(&n.spec_items()[k]),
            stack: env.stack,
            globals: Globals {
                root: env.globals.root,
                index: Some(k as usize),
                first: Some(k == 0),
                last: Some(k + 1 == n.spec_items().len()),
                key: env.globals.key,
            },
        },
        ItemSource::Pairs(n) => Env {
            ctx: Node::Data(&n.spec_pairs()[k].1),
            stack: env.stack,
            globals: Globals {
                root: env.globals.root,
                index: env.globals.index,
                first: Some(k == 0),
                last: Some(k + 1 == n.spec_pairs().len()),
                key: Some(&n.spec_pairs()[k].0),
            },
        },
    }
}

/// What one entry amounts to, before any block is rendered.
pub enum Choice<'a> {
    Nothing,
    Emit(Seq<char>),
    Fail(Fault),
    /// The expression's block, in this environment.
    Block(Env<'a>),
    /// The expression's else block, in this environment.
    Else(Env<'a>),
    /// The expression's block once per item.
    Items(ItemSource<'a>, Env<'a>),
    /// A partial's entries, one partial level deeper, and the indentation
    /// its output gets after each inner newline.
    Partial(Seq<HBEntry>, Env<'a>, Seq<char>),
}

pub open spec fn indent_of(exp: HBExpression) -> Seq<char> {
    match exp.render_options.indent {
        Some(s) => s@,
        None => Seq::empty(),
    }
}

/// Text as the expression writes it: escaped unless the expression is raw.
pub open spec fn shown(exp: HBExpression, t: Seq<char>) -> Seq<char> {
    if exp.render_options.escape {
        escape_html(t)
    } else {
        t
    }
}

/// A parameter's value as a helper receives it: a literal, or what its path
/// names (nothing when the path names nothing).
pub open spec fn param_node<'a>(v: HBValHolder, env: Env<'a>) -> Node<'a> {
    match v {
        HBValHolder::String(s) => Node::Text(&s),
        HBValHolder::Path(p) => match resolve(views(p@), env.ctx, env.stack, env.globals, false) {
            Some(n) => n,
            None => Node::Null,
        },
    }
}

/// An option's value as a partial receives it.
pub open spec fn option_node<'a>(v: HBValHolder, env: Env<'a>, compat: bool) -> Node<'a> {
    match v {
        HBValHolder::String(s) => Node::Text(&s),
        HBValHolder::Path(p) => match resolve(views(p@), env.ctx, env.stack, env.globals, compat) {
            Some(n) => n,
            None => Node::Null,
        },
    }
}

/// The truthiness of a helper's first parameter (false when there is none).
pub open spec fn first_condition<'a>(exp: HBExpression, env: Env<'a>, compat: bool) -> bool {
    if exp.params@.len() == 0 {
        false
    } else {
        match exp.params@[0] {
            HBValHolder::String(s) => s@.len() > 0,
            HBValHolder::Path(p) => match resolve(views(p@), env.ctx, env.stack, env.globals, compat) {
                Some(n) => n.spec_as_bool(),
                None => false,
            },
        }
    }
}

/// What `lookup` finds: the last parameter's text, read as a path, from the
/// current context, or from the first parameter when there are two.
pub open spec fn lookup_found<'a>(exp: HBExpression, env: Env<'a>, compat: bool) -> Option<Node<'a>> {
    let ps = exp.params@;
    if ps.len() == 0 {
        None
    } else if ps.len() == 1 {
        resolve(
            path_segments(param_node(ps[0], env).text()),
            env.ctx,
            env.stack,
            env.globals,
            compat,
        )
    } else {
        resolve(
            path_segments(param_node(ps[1], env).text()),
            param_node(ps[0], env),
            env.stack,
            env.globals,
            compat,
        )
    }
}

/// A context given the partial call's options as fallbacks, in order.
pub open spec fn layered<'a>(base: Node<'a>, opts: Seq<(String, HBValHolder)>, env: Env<'a>, compat: bool) -> Node<'a>
    decreases opts.len(),
{
    if opts.len() == 0 {
        base
    } else {
        Node::Layer(
            Box::new(layered(base, opts.drop_last(), env, compat)),
            &opts.last().0,
            Box::new(option_node(opts.last().1, env, compat)),
        )
    }
}

/// What a helper does. Without a block only `lookup` writes anything.
pub open spec fn choose_helper<'a>(h: Helper, exp: HBExpression, env: Env<'a>, compat: bool) -> Choice<'a> {
    let condition = first_condition(exp, env, compat) != exp.render_options.inverse;
    let ps = exp.params@;
    match h {
        Helper::Lookup => match lookup_found(exp, env, compat) {
            Some(n) => Choice::Emit(shown(exp, n.text())),
            None => Choice::Nothing,
        },
        Helper::If => if exp.block is None {
            Choice::Nothing
        } else if condition {
            Choice::Block(env)
        } else {
            Choice::Else(env)
        },
        Helper::Unless => if exp.block is None {
            Choice::Nothing
        } else if condition {
            Choice::Else(env)
        } else {
            Choice::Block(env)
        },
        Helper::With => if exp.block is None {
            Choice::Nothing
        } else if ps.len() == 1 && param_node(ps[0], env).spec_as_bool() {
            Choice::Block(Env { ctx: param_node(ps[0], env), stack: env.stack, globals: env.globals })
        } else {
            Choice::Else(env)
        },
        Helper::Each => {
            let target = if ps.len() > 0 { param_node(ps[0], env) } else { env.ctx };
            if exp.block is None {
                Choice::Nothing
            } else {
                match target.spec_node_type() {
                    HBNodeType::Array => if target.spec_items().len() > 0 {
                        Choice::Items(ItemSource::Values(target), env)
                    } else {
                        Choice::Else(env)
                    },
                    HBNodeType::Branch => if target.spec_pairs().len() > 0 {
                        Choice::Items(ItemSource::Pairs(target), env)
                    } else {
                        Choice::Else(env)
                    },
                    _ => Choice::Block(env),
                }
            }
        },
    }
}

/// What a value expression or a section does.
///
/// A single-segment base that names a helper runs the helper. Otherwise the
/// base is resolved: without a block, a scalar or an ordered collection is
/// written; with one, an ordered collection renders the block once per item
/// (once with no context when empty and inverted), anything else renders the
/// block with the node as context when its truthiness differs from the
/// inversion flag; the else block renders otherwise.
pub open spec fn choose_eval<'a>(exp: HBExpression, env: Env<'a>, ec: EvalContext) -> Choice<'a> {
    let base = views(exp.base@);
    let inv = exp.render_options.inverse;
    if base.len() == 0 {
        Choice::Nothing
    } else if base.len() == 1 && named(ec.helpers@, base[0]) is Some {
        choose_helper(named(ec.helpers@, base[0])->0, exp, env, ec.compat)
    } else {
        let found = resolve(base, env.ctx, env.stack, env.globals, ec.compat);
        if exp.block is None {
            match found {
                Some(n) => match n.spec_node_type() {
                    HBNodeType::Leaf => Choice::Emit(shown(exp, n.text())),
                    HBNodeType::Array => Choice::Emit(shown(exp, n.text())),
                    _ => Choice::Nothing,
                },
                None => Choice::Nothing,
            }
        } else {
            let c = match found {
                Some(n) => n,
                None => Node::Null,
            };
            let deeper = env.stack.push(env.ctx);
            match c.spec_node_type() {
                HBNodeType::Array => if !inv && c.spec_items().len() > 0 {
                    Choice::Items(
                        ItemSource::Section(c),
                        Env { ctx: env.ctx, stack: deeper, globals: env.globals },
                    )
                } else if inv && c.spec_items().len() == 0 {
                    Choice::Block(Env { ctx: Node::Null, stack: deeper, globals: env.globals })
                } else {
                    Choice::Else(env)
                },
                _ => if c.spec_as_bool() != inv {
                    Choice::Block(Env { ctx: c, stack: deeper, globals: env.globals })
                } else {
                    Choice::Else(env)
                },
            }
        }
    }
}

/// What a partial call does: the named partial renders with the context
/// that its first path parameter names (else the current one) and its
/// options as fallbacks; its output is indented by the call's captured
/// indentation.
pub open spec fn choose_partial<'a>(exp: HBExpression, env: Env<'a>, depth: nat, ec: EvalContext) -> Choice<'a> {
    let name = join_path(exp.base@);
    let ps = exp.params@;
    if exp.base@.len() == 0 {
        Choice::Nothing
    } else {
        match named(ec.partials@, name) {
            None => Choice::Fail(Fault::MissingPartial(name)),
            Some(t) => if depth >= MAX_PARTIAL_DEPTH {
                Choice::Fail(Fault::TooDeep)
            } else {
                let c0 = if ps.len() > 0 && ps[0] is Path {
                    match resolve(views(ps[0]->Path_0@), env.ctx, env.stack, env.globals, ec.compat) {
                        Some(n) => n,
                        None => env.ctx,
                    }
                } else {
                    env.ctx
                };
                Choice::Partial(
                    t@,
                    Env { ctx: layered(c0, exp.options@, env, ec.compat), stack: env.stack, globals: env.globals },
                    indent_of(exp),
                )
            },
        }
    }
}

pub open spec fn choose_entry<'a>(e: HBEntry, env: Env<'a>, depth: nat, ec: EvalContext) -> Choice<'a> {
    match e {
        HBEntry::Raw(s) => Choice::Emit(s@),
        HBEntry::Eval(exp) => choose_eval(exp, env, ec),
        HBEntry::Partial(exp) => choose_partial(exp, env, depth, ec),
    }
}

/// What the entries of `es` from position `i` on render to.
pub open spec fn render_entries<'a>(es: Seq<HBEntry>, i: int, env: Env<'a>, depth: nat, ec: EvalContext) -> Rendered
    decreases MAX_PARTIAL_DEPTH - depth, es, es.len() - i,
{
    if i < 0 || i >= es.len() {
        Rendered { out: Ok(Seq::empty()), steps: 1 }
    } else {
        tick(then(render_entry(es[i], env, depth, ec), render_entries(es, i + 1, env, depth, ec)))
    }
}

/// What one entry renders to.
pub open spec fn render_entry<'a>(e: HBEntry, env: Env<'a>, depth: nat, ec: EvalContext) -> Rendered
    decreases MAX_PARTIAL_DEPTH - depth, e, 0int,
{
    match choose_entry(e, env, depth, ec) {
        Choice::Nothing => emit(Seq::empty()),
        Choice::Emit(t) => emit(t),
        Choice::Fail(f) => Rendered { out: Err(f), steps: 0 },
        Choice::Block(env2) => match e {
            HBEntry::Eval(exp) => match exp.block {
                Some(b) => render_entries(b@, 0, env2, depth, ec),
                None => emit(Seq::empty()),
            },
            _ => emit(Seq::empty()),
        },
        Choice::Else(env2) => match e {
            HBEntry::Eval(exp) => match exp.else_block {
                Some(b) => render_entries(b@, 0, env2, depth, ec),
                None => emit(Seq::empty()),
            },
            _ => emit(Seq::empty()),
        },
        Choice::Items(src, env2) => match e {
            HBEntry::Eval(exp) => match exp.block {
                Some(b) => render_items(b, src, 0, env2, depth, ec),
                None => emit(Seq::empty()),
            },
            _ => emit(Seq::empty()),
        },
        Choice::Partial(t, env2, ind) => if depth < MAX_PARTIAL_DEPTH {
            let r = render_entries(t, 0, env2, depth + 1, ec);
            Rendered { out: indent_out(r.out, ind), steps: r.steps + 1 }
        } else {
            emit(Seq::empty())
        },
    }
}

/// What `block` renders to once per item of `src` from the `k`-th on.
pub open spec fn render_items<'a>(
    block: Vec<HBEntry>,
    src: ItemSource<'a>,
    k: int,
    env: Env<'a>,
    depth: nat,
    ec: EvalContext,
) -> Rendered
    decreases MAX_PARTIAL_DEPTH - depth, block, src.count() - k,
{
    if k < 0 || k >= src.count() {
        Rendered { out: Ok(Seq::empty()), steps: 1 }
    } else {
        tick(then(render_entries(block@, 0, item_env(src, k, env), depth, ec), render_items(block, src, k + 1, env, depth, ec)))
    }
}

/// The environment a template starts in: the data as context, no enclosing
/// contexts, `@root` as the only global.
pub open spec fn root_env<'a>(data: &'a HBData) -> Env<'a> {
    Env {
        ctx: Node::Data(data),
        stack: Seq::empty(),
        globals: Globals { root: data, index: None, first: None, last: None, key: None },
    }
}

/// What a template renders to over `data`.
pub open spec fn render_template<'a>(template: Seq<HBEntry>, data: &'a HBData, ec: EvalContext) -> Result<Seq<char>, Fault> {
    render_entries(template, 0, root_env(data), 0, ec).out
}

/// Why evaluation stopped: a partial that is not registered, or partials
/// nested deeper than `MAX_PARTIAL_DEPTH`.
#[derive(Debug)]
pub enum EvalError {
    MissingPartial(String),
    TooDeep,
}

impl EvalError {
    pub open spec fn fault(&self) -> Fault {
        match self {
            EvalError::MissingPartial(name) => Fault::MissingPartial(name@),
            EvalError::TooDeep => Fault::TooDeep,
        }
    }
}

/// The environment of a work item, with its partial nesting depth.
pub struct Scope<'a> {
    pub ctx: Node<'a>,
    pub stack: Vec<Node<'a>>,
    pub globals: Globals<'a>,
    pub depth: usize,
}

impl<'a> Scope<'a> {
    pub open spec fn env(&self) -> Env<'a> {
        Env { ctx: self.ctx, stack: self.stack@, globals: self.globals }
    }

    /// The same environment with another context.
    fn with_ctx(&self, ctx: Node<'a>) -> (r: Scope<'a>)
        ensures
            r.env() == (Env { ctx, stack: self.stack@, globals: self.globals }),
            r.depth == self.depth,
    {
        Scope { ctx, stack: copy_nodes(&self.stack), globals: self.globals, depth: self.depth }
    }

    /// The environment of a block: `ctx` as context, the current context
    /// pushed onto the enclosing ones.
    fn nested(&self, ctx: Node<'a>) -> (r: Scope<'a>)
        ensures
            r.env() == (Env { ctx, stack: self.stack@.push(self.ctx), globals: self.globals }),
            r.depth == self.depth,
    {
        let mut r = self.with_ctx(ctx);
        r.stack.push(self.ctx.copy());
        r
    }
}

/// What the evaluator does with one entry.
pub enum Next<'a> {
    Nothing,
    Emit(Vec<char>),
    Fail(EvalError),
    Block(Scope<'a>),
    Else(Scope<'a>),
    Items(ItemSource<'a>, Scope<'a>),
    Partial(&'a Template, Scope<'a>, Vec<char>),
}

impl<'a> Next<'a> {
    pub open spec fn choice(&self) -> Choice<'a> {
        match self {
            Next::Nothing => Choice::Nothing,
            Next::Emit(t) => Choice::Emit(t@),
            Next::Fail(e) => Choice::Fail(e.fault()),
            Next::Block(s) => Choice::Block(s.env()),
            Next::Else(s) => Choice::Else(s.env()),
            Next::Items(src, s) => Choice::Items(*src, s.env()),
            Next::Partial(t, s, ind) => Choice::Partial(t@, s.env(), ind@),
        }
    }

    /// The scopes handed on keep the depth, one more for a partial.
    pub open spec fn keeps_depth(&self, depth: usize) -> bool {
        match self {
            Next::Block(s) => s.depth == depth,
            Next::Else(s) => s.depth == depth,
            Next::Items(_, s) => s.depth == depth,
            Next::Partial(_, s, _) => s.depth == depth + 1,
            _ => true,
        }
    }
}

fn param_value<'a>(v: &'a HBValHolder, scope: &Scope<'a>) -> (r: Node<'a>)
    ensures
        r == param_node(*v, scope.env()),
{
    match v {
        HBValHolder::String(s) => Node::Text(s),
        HBValHolder::Path(p) => match value_for_key_path_in_context(&scope.ctx, p, &scope.stack, &scope.globals, false) {
            Some(n) => n,
            None => Node::Null,
        },
    }
}

fn option_value<'a>(v: &'a HBValHolder, scope: &Scope<'a>, compat: bool) -> (r: Node<'a>)
    ensures
        r == option_node(*v, scope.env(), compat),
{
    match v {
        HBValHolder::String(s) => Node::Text(s),
        HBValHolder::Path(p) => match value_for_key_path_in_context(&scope.ctx, p, &scope.stack, &scope.globals, compat) {
            Some(n) => n,
            None => Node::Null,
        },
    }
}

fn condition_of<'a>(exp: &'a HBExpression, scope: &Scope<'a>, compat: bool) -> (r: bool)
    ensures
        r == first_condition(*exp, scope.env(), compat),
{
    if exp.params.len() == 0 {
        false
    } else {
        match &exp.params[0] {
            HBValHolder::String(s) => !s.as_str().is_empty(),
            HBValHolder::Path(p) => match value_for_key_path_in_context(&scope.ctx, p, &scope.stack, &scope.globals, compat) {
                Some(n) => n.as_bool(),
                None => false,
            },
        }
    }
}

/// Text as the expression writes it.
fn shown_text(exp: &HBExpression, t: Vec<char>) -> (r: Vec<char>)
    ensures
        r@ == shown(*exp, t@),
{
    if exp.render_options.escape {
        let mut r: Vec<char> = Vec::new();
        push_escaped(&mut r, &t);
        r
    } else {
        t
    }
}

/// Resolves the text of `key`, read as a path, from `ctx`.
fn lookup_in<'a>(key: &Node<'a>, ctx: &Node<'a>, scope: &Scope<'a>, compat: bool) -> (r: Option<Node<'a>>)
    ensures
        r == resolve(path_segments(key.text()), *ctx, scope.stack@, scope.globals, compat),
{
    let mut text: Vec<char> = Vec::new();
    key.write_value(&mut text);
    let segs = parse_path(&text);
    value_for_key_path_in_context(ctx, &segs, &scope.stack, &scope.globals, compat)
}

fn lookup_value<'a>(exp: &'a HBExpression, scope: &Scope<'a>, compat: bool) -> (r: Option<Node<'a>>)
    ensures
        r == lookup_found(*exp, scope.env(), compat),
{
    if exp.params.len() == 0 {
        None
    } else if exp.params.len() == 1 {
        let key = param_value(&exp.params[0], scope);
        lookup_in(&key, &scope.ctx, scope, compat)
    } else {
        let ctx = param_value(&exp.params[0], scope);
        let key = param_value(&exp.params[1], scope);
        lookup_in(&key, &ctx, scope, compat)
    }
}

fn run_helper<'a>(h: Helper, exp: &'a HBExpression, scope: &Scope<'a>, compat: bool) -> (r: Next<'a>)
    ensures
        r.choice() == choose_helper(h, *exp, scope.env(), compat),
        r.keeps_depth(scope.depth),
{
    let condition = condition_of(exp, scope, compat) != exp.render_options.inverse;
    match h {
        Helper::Lookup => match lookup_value(exp, scope, compat) {
            Some(n) => {
                let mut t: Vec<char> = Vec::new();
                n.write_value(&mut t);
                Next::Emit(shown_text(exp, t))
            },
            None => Next::Nothing,
        },
        Helper::If => if exp.block.is_none() {
            Next::Nothing
        } else if condition {
            Next::Block(scope.with_ctx(scope.ctx.copy()))
        } else {
            Next::Else(scope.with_ctx(scope.ctx.copy()))
        },
        Helper::Unless => if exp.block.is_none() {
            Next::Nothing
        } else if condition {
            Next::Else(scope.with_ctx(scope.ctx.copy()))
        } else {
            Next::Block(scope.with_ctx(scope.ctx.copy()))
        },
        Helper::With => if exp.block.is_none() {
            Next::Nothing
        } else if exp.params.len() == 1 {
            let v = param_value(&exp.params[0], scope);
            if v.as_bool() {
                Next::Block(scope.with_ctx(v))
            } else {
                Next::Else(scope.with_ctx(scope.ctx.copy()))
            }
        } else {
            Next::Else(scope.with_ctx(scope.ctx.copy()))
        },
        Helper::Each => {
            let target = if exp.params.len() > 0 {
                param_value(&exp.params[0], scope)
            } else {
                scope.ctx.copy()
            };
            if exp.block.is_none() {
                Next::Nothing
            } else {
                match target.typed_node() {
                    HBNodeType::Array => {
                        let n = match target.array_items() {
                            Some(v) => v.len(),
                            None => 0,
                        };
                        if n > 0 {
                            Next::Items(ItemSource::Values(target), scope.with_ctx(scope.ctx.copy()))
                        } else {
                            Next::Else(scope.with_ctx(scope.ctx.copy()))
                        }
                    },
                    HBNodeType::Branch => {
                        let n = match target.object_pairs() {
                            Some(p) => p.len(),
                            None => 0,
                        };
                        if n > 0 {
                            Next::Items(ItemSource::Pairs(target), scope.with_ctx(scope.ctx.copy()))
                        } else {
                            Next::Else(scope.with_ctx(scope.ctx.copy()))
                        }
                    },
                    _ => Next::Block(scope.with_ctx(scope.ctx.copy())),
                }
            }
        },
    }
}

fn eval_choice<'a>(exp: &'a HBExpression, scope: &Scope<'a>, ec: &'a EvalContext) -> (r: Next<'a>)
    ensures
        r.choice() == choose_eval(*exp, scope.env(), *ec),
        r.keeps_depth(scope.depth),
{
    let inv = exp.render_options.inverse;
    if exp.base.len() == 0 {
        return Next::Nothing;
    }
    if exp.base.len() == 1 {
        assert(views(exp.base@)[0] == exp.base@[0]@);
        match ec.helper_with_name(&exp.base[0]) {
            Some(h) => {
                return run_helper(h, exp, scope, ec.compat);
            },
            None => {},
        }
    }
    let found = value_for_key_path_in_context(&scope.ctx, &exp.base, &scope.stack, &scope.globals, ec.compat);
    if exp.block.is_none() {
        match found {
            Some(n) => match n.typed_node() {
                HBNodeType::Leaf => {
                    let mut t: Vec<char> = Vec::new();
                    n.write_value(&mut t);
                    Next::Emit(shown_text(exp, t))
                },
                HBNodeType::Array => {
                    let mut t: Vec<char> = Vec::new();
                    n.write_value(&mut t);
                    Next::Emit(shown_text(exp, t))
                },
                _ => Next::Nothing,
            },
            None => Next::Nothing,
        }
    } else {
        let c = match found {
            Some(n) => n,
            None => Node::Null,
        };
        match c.typed_node() {
            HBNodeType::Array => {
                let n = match c.array_items() {
                    Some(v) => v.len(),
                    None => 0,
                };
                if !inv && n > 0 {
                    let inner = scope.nested(scope.ctx.copy());
                    Next::Items(ItemSource::Section(c), inner)
                } else if inv && n == 0 {
                    Next::Block(scope.nested(Node::Null))
                } else {
                    Next::Else(scope.with_ctx(scope.ctx.copy()))
                }
            },
            _ => {
                if c.as_bool() != inv {
                    Next::Block(scope.nested(c))
                } else {
                    Next::Else(scope.with_ctx(scope.ctx.copy()))
                }
            },
        }
    }
}

fn partial_choice<'a>(exp: &'a HBExpression, scope: &Scope<'a>, ec: &'a EvalContext) -> (r: Next<'a>)
    ensures
        r.choice() == choose_partial(*exp, scope.env(), scope.depth as nat, *ec),
        r.keeps_depth(scope.depth),
{
    if exp.base.len() == 0 {
        return Next::Nothing;
    }
    let name = exp.path();
    match ec.partial_with_name(&name) {
        None => Next::Fail(EvalError::MissingPartial(name)),
        Some(t) => {
            if scope.depth >= MAX_PARTIAL_DEPTH {
                return Next::Fail(EvalError::TooDeep);
            }
            let mut c = scope.ctx.copy();
            if exp.params.len() > 0 {
                match &exp.params[0] {
                    HBValHolder::Path(p) => {
                        match value_for_key_path_in_context(&scope.ctx, p, &scope.stack, &scope.globals, ec.compat) {
                            Some(n) => {
                                c = n;
                            },
                            None => {},
                        }
                    },
                    _ => {},
                }
            }
            let ghost c0 = c;
            let mut i: usize = 0;
            while i < exp.options.len()
                invariant
                    i <= exp.options@.len(),
                    c == layered(c0, exp.options@.subrange(0, i as int), scope.env(), ec.compat),
                decreases exp.options@.len() - i,
            {
                let v = option_value(&exp.options[i].1, scope, ec.compat);
                let ghost sub = exp.options@.subrange(0, i + 1);
                assert(sub.drop_last() == exp.options@.subrange(0, i as int));
                assert(sub.last() == exp.options@[i as int]);
                c = Node::Layer(Box::new(c), &exp.options[i].0, Box::new(v));
                i = i + 1;
            }
            assert(exp.options@.subrange(0, exp.options@.len() as int) == exp.options@);
            let indent = match &exp.render_options.indent {
                Some(extra) => crate::text::chars_of(extra.as_str()),
                None => Vec::new(),
            };
            Next::Partial(t, Scope { ctx: c, stack: copy_nodes(&scope.stack), globals: scope.globals, depth: scope.depth + 1 }, indent)
        },
    }
}

/// What the evaluator does with `e` in `scope`.
fn next_step<'a>(e: &'a HBEntry, scope: &Scope<'a>, ec: &'a EvalContext) -> (r: Next<'a>)
    ensures
        r.choice() == choose_entry(*e, scope.env(), scope.depth as nat, *ec),
        r.keeps_depth(scope.depth),
{
    match e {
        HBEntry::Raw(s) => Next::Emit(crate::text::chars_of(s.as_str())),
        HBEntry::Eval(exp) => eval_choice(exp, scope, ec),
        HBEntry::Partial(exp) => partial_choice(exp, scope, ec),
    }
}

/// A pending piece of evaluation: the entries of a list from a position
/// on, a block once per item of a collection from an item on, or the
/// indentation of everything written since a mark (where a partial began).
pub enum Work<'a> {
    Entries(&'a Vec<HBEntry>, usize, Scope<'a>),
    Items(&'a Vec<HBEntry>, ItemSource<'a>, usize, Scope<'a>),
    Indent(usize, Vec<char>),
}

pub open spec fn render_work<'a>(w: Work<'a>, ec: EvalContext) -> Rendered {
    match w {
        Work::Entries(es, i, s) => render_entries(es@, i as int, s.env(), s.depth as nat, ec),
        Work::Items(b, src, k, s) => render_items(*b, src, k as int, s.env(), s.depth as nat, ec),
        Work::Indent(_, _) => Rendered { out: Ok(Seq::empty()), steps: 1 },
    }
}

/// How many work items the pending work `ws` still pops.
pub open spec fn stack_steps<'a>(ws: Seq<Work<'a>>, ec: EvalContext) -> nat
    decreases ws.len(),
{
    if ws.len() == 0 {
        0
    } else {
        render_work(ws.last(), ec).steps + stack_steps(ws.drop_last(), ec)
    }
}

/// What evaluation ends with, having written `out`, with `ws` pending (top last).
pub open spec fn finish<'a>(out: Seq<char>, ws: Seq<Work<'a>>, ec: EvalContext) -> Result<Seq<char>, Fault>
    decreases ws.len(),
{
    if ws.len() == 0 {
        Ok(out)
    } else {
        match ws.last() {
            Work::Indent(m, ind) => if m <= out.len() {
                finish(
                    out.subrange(0, m as int) + indent_block(out.subrange(m as int, out.len() as int), ind@),
                    ws.drop_last(),
                    ec,
                )
            } else {
                finish(out, ws.drop_last(), ec)
            },
            _ => match render_work(ws.last(), ec).out {
                Ok(s) => finish(out + s, ws.drop_last(), ec),
                Err(e) => Err(e),
            },
        }
    }
}

/// What evaluation ends with after writing `r` (or failing with it).
pub open spec fn continue_with<'a>(out: Seq<char>, r: Result<Seq<char>, Fault>, ws: Seq<Work<'a>>, ec: EvalContext) -> Result<Seq<char>, Fault> {
    match r {
        Ok(s) => finish(out + s, ws, ec),
        Err(e) => Err(e),
    }
}

proof fn lemma_continue_join<'a>(out: Seq<char>, a: Result<Seq<char>, Fault>, b: Result<Seq<char>, Fault>, ws: Seq<Work<'a>>, ec: EvalContext)
    ensures
        continue_with(out, join_out(a, b), ws, ec) == match a {
            Ok(x) => continue_with(out + x, b, ws, ec),
            Err(e) => Err(e),
        },
{
    match (a, b) {
        (Ok(x), Ok(y)) => {
            assert(out + (x + y) == out + x + y);
        },
        _ => {},
    }
}

proof fn lemma_push_work<'a>(ws: Seq<Work<'a>>, w: Work<'a>, ec: EvalContext)
    ensures
        stack_steps(ws.push(w), ec) == render_work(w, ec).steps + stack_steps(ws, ec),
        !(w is Indent) ==> forall|o: Seq<char>| #[trigger] finish(o, ws.push(w), ec) == continue_with(o, render_work(w, ec).out, ws, ec),
{
    assert(ws.push(w).drop_last() == ws);
    assert(ws.push(w).last() == w);
}

proof fn lemma_push_indent<'a>(ws: Seq<Work<'a>>, m: usize, ind: Vec<char>, o: Seq<char>, x: Seq<char>, ec: EvalContext)
    requires
        m == o.len(),
    ensures
        finish(o + x, ws.push(Work::Indent(m, ind)), ec) == finish(o + indent_block(x, ind@), ws, ec),
{
    let w = Work::Indent(m, ind);
    assert(ws.push(w).drop_last() == ws);
    assert(ws.push(w).last() == w);
    assert((o + x).subrange(0, m as int) == o);
    assert((o + x).subrange(m as int, (o + x).len() as int) == x);
}

proof fn lemma_continue_empty<'a>(out: Seq<char>, b: Result<Seq<char>, Fault>, ws: Seq<Work<'a>>, ec: EvalContext)
    ensures
        continue_with(out + Seq::<char>::empty(), b, ws, ec) == continue_with(out, b, ws, ec),
{
    assert(out + Seq::<char>::empty() == out);
}

fn item_count<'a>(src: &ItemSource<'a>) -> (r: usize)
    ensures
        r == src.count(),
{
    match src {
        ItemSource::Section(n) => match n.array_items() {
            Some(v) => v.len(),
            None => 0,
        },
        ItemSource::Values(n) => match n.array_items() {
            Some(v) => v.len(),
            None => 0,
        },
        ItemSource::Pairs(n) => match n.object_pairs() {
            Some(p) => p.len(),
            None => 0,
        },
    }
}

/// The scope of the `k`-th item.
fn item_scope<'a>(src: &ItemSource<'a>, k: usize, scope: &Scope<'a>) -> (r: Scope<'a>)
    requires
        k < src.count(),
    ensures
        r.env() == item_env(*src, k as int, scope.env()),
        r.depth == scope.depth,
{
    match src {
        ItemSource::Section(n) => {
            let v = n.array_items().unwrap();
            scope.with_ctx(Node::Data(&v[k]))
        },
        ItemSource::Values(n) => {
            let v = n.array_items().unwrap();
            let mut r = scope.with_ctx(Node::Data(&v[k]));
            r.globals = Globals {
                root: scope.globals.root,
                index: Some(k),
                first: Some(k == 0),
                last: Some(k == v.len() - 1),
                key: scope.globals.key,
            };
            r
        },
        ItemSource::Pairs(n) => {
            let p = n.object_pairs().unwrap();
            let mut r = scope.with_ctx(Node::Data(&p[k].1));
            r.globals = Globals {
                root: scope.globals.root,
                index: scope.globals.index,
                first: Some(k == 0),
                last: Some(k == p.len() - 1),
                key: Some(&p[k].0),
            };
            r
        },
    }
}

/// Renders `template` over `data`, or fails on a partial that is not
/// registered or nested too deeply.
///
/// Evaluation keeps a stack of pending work instead of recursing, so the
/// depth of a template is bounded by memory, not by the call stack.
#[verifier::rlimit(60)]
pub fn eval<'a>(template: &'a Template, data: &'a HBData, eval_context: &'a EvalContext) -> (r: Result<String, EvalError>)
    ensures
        r matches Ok(s) ==> render_template(template@, data, *eval_context) == Ok::<Seq<char>, Fault>(s@),
        r matches Err(e) ==> render_template(template@, data, *eval_context) == Err::<Seq<char>, Fault>(e.fault()),
{
    let ghost ec = *eval_context;
    let globals = Globals { root: data, index: None, first: None, last: None, key: None };
    let root = Scope { ctx: Node::Data(data), stack: Vec::new(), globals, depth: 0 };
    let mut work: Vec<Work<'a>> = Vec::new();
    work.push(Work::Entries(template, 0, root));
    let mut out: Vec<char> = Vec::new();
    proof {
        assert(work@.drop_last() == Seq::<Work<'a>>::empty());
        assert(root.env() == root_env(data));
        match render_work(work@.last(), ec).out {
            Ok(x) => {
                assert(Seq::<char>::empty() + x == x);
                assert(finish(Seq::<char>::empty() + x, work@.drop_last(), ec) == Ok::<Seq<char>, Fault>(x));
            },
            _ => {},
        }
    }
    while work.len() > 0
        invariant
            ec == *eval_context,
            finish(out@, work@, ec) == render_template(template@, data, ec),
        decreases stack_steps(work@, ec),
    {
        let ghost before = work@;
        let w = work.pop().unwrap();
        let ghost rest = work@;
        assert(rest == before.drop_last());
        assert(w == before.last());
        match w {
            Work::Entries(es, i, scope) => {
                if i < es.len() {
                    let next = next_step(&es[i], &scope, eval_context);
                    let ghost env = scope.env();
                    let ghost depth = scope.depth as nat;
                    let ghost e_r = render_entry(es@[i as int], env, depth, ec);
                    let ghost tail = render_entries(es@, i + 1, env, depth, ec);
                    let entry = &es[i];
                    let ghost cont = Work::Entries(es, (i + 1) as usize, scope);
                    work.push(Work::Entries(es, i + 1, scope));
                    let ghost mid = work@;
                    proof {
                        assert(mid == rest.push(cont));
                        lemma_push_work(rest, w, ec);
                        lemma_push_work(rest, cont, ec);
                        lemma_continue_join(out@, e_r.out, tail.out, rest, ec);
                    }
                    match next {
                        Next::Nothing => {
                            proof {
                                lemma_continue_empty(out@, tail.out, rest, ec);
                            }
                        },
                        Next::Emit(t) => {
                            push_all(&mut out, &t);
                        },
                        Next::Fail(e) => {
                            return Err(e);
                        },
                        Next::Block(s2) => {
                            match entry {
                                HBEntry::Eval(exp) => match &exp.block {
                                    Some(b) => {
                                        let ghost w2 = Work::Entries(b, 0, s2);
                                        work.push(Work::Entries(b, 0, s2));
                                        proof {
                                            assert(work@ == mid.push(w2));
                                            lemma_push_work(mid, w2, ec);
                                        }
                                    },
                                    None => {
                                        proof {
                                            lemma_continue_empty(out@, tail.out, rest, ec);
                                        }
                                    },
                                },
                                _ => {
                                    proof {
                                        lemma_continue_empty(out@, tail.out, rest, ec);
                                    }
                                },
                            }
                        },
                        Next::Else(s2) => {
                            match entry {
                                HBEntry::Eval(exp) => match &exp.else_block {
                                    Some(b) => {
                                        let ghost w2 = Work::Entries(b, 0, s2);
                                        work.push(Work::Entries(b, 0, s2));
                                        proof {
                                            assert(work@ == mid.push(w2));
                                            lemma_push_work(mid, w2, ec);
                                        }
                                    },
                                    None => {
                                        proof {
                                            lemma_continue_empty(out@, tail.out, rest, ec);
                                        }
                                    },
                                },
                                _ => {
                                    proof {
                                        lemma_continue_empty(out@, tail.out, rest, ec);
                                    }
                                },
                            }
                        },
                        Next::Items(src, s2) => {
                            match entry {
                                HBEntry::Eval(exp) => match &exp.block {
                                    Some(b) => {
                                        let ghost w2 = Work::Items(b, src, 0, s2);
                                        work.push(Work::Items(b, src, 0, s2));
                                        proof {
                                            assert(work@ == mid.push(w2));
                                            lemma_push_work(mid, w2, ec);
                                        }
                                    },
                                    None => {
                                        proof {
                                            lemma_continue_empty(out@, tail.out, rest, ec);
                                        }
                                    },
                                },
                                _ => {
                                    proof {
                                        lemma_continue_empty(out@, tail.out, rest, ec);
                                    }
                                },
                            }
                        },
                        Next::Partial(t, s2, ind) => {
                            let ghost w2 = Work::Entries(t, 0, s2);
                            let ghost mark = Work::Indent(out.len(), ind);
                            let ghost o = out@;
                            work.push(Work::Indent(out.len(), ind));
                            let ghost with_mark = work@;
                            work.push(Work::Entries(t, 0, s2));
                            proof {
                                assert(with_mark == mid.push(mark));
                                assert(work@ == with_mark.push(w2));
                                lemma_push_work(with_mark, w2, ec);
                                lemma_push_work(mid, mark, ec);
                                let p = render_work(w2, ec);
                                match p.out {
                                    Ok(x) => {
                                        lemma_push_indent(mid, o.len() as usize, ind, o, x, ec);
                                    },
                                    _ => {},
                                }
                            }
                        },
                    }
                } else {
                    proof {
                        lemma_push_work(rest, w, ec);
                        assert(out@ + Seq::<char>::empty() == out@);
                    }
                }
            },
            Work::Items(b, src, k, scope) => {
                if k < item_count(&src) {
                    let s2 = item_scope(&src, k, &scope);
                    let ghost first = render_entries(b@, 0, s2.env(), scope.depth as nat, ec);
                    let ghost later = render_items(*b, src, k + 1, scope.env(), scope.depth as nat, ec);
                    let ghost w1 = Work::Items(b, src, (k + 1) as usize, scope);
                    let ghost w2 = Work::Entries(b, 0, s2);
                    work.push(Work::Items(b, src, k + 1, scope));
                    let ghost mid = work@;
                    work.push(Work::Entries(b, 0, s2));
                    proof {
                        assert(mid == rest.push(w1));
                        assert(work@ == mid.push(w2));
                        lemma_push_work(rest, w, ec);
                        lemma_push_work(rest, w1, ec);
                        lemma_push_work(mid, w2, ec);
                        lemma_continue_join(out@, first.out, later.out, rest, ec);
                    }
                } else {
                    proof {
                        lemma_push_work(rest, w, ec);
                        assert(out@ + Seq::<char>::empty() == out@);
                    }
                }
            },
            Work::Indent(m, ind) => {
                proof {
                    lemma_push_work(rest, w, ec);
                    assert(before == rest.push(w));
                }
                if m <= out.len() {
                    let tail = crate::keypath::slice_chars(&out, m, out.len());
                    let mut fresh = crate::keypath::slice_chars(&out, 0, m);
                    if tail.len() > 0 {
                        push_all(&mut fresh, &ind);
                    }
                    push_indented(&mut fresh, &tail, &ind);
                    proof {
                        if tail@.len() == 0 {
                            assert(indent_text(tail@, ind@) == Seq::<char>::empty());
                            assert(fresh@ =~= out@.subrange(0, m as int) + indent_block(tail@, ind@));
                        } else {
                            assert(fresh@ =~= out@.subrange(0, m as int) + indent_block(tail@, ind@));
                        }
                    }
                    out = fresh;
                }
            },
        }
    }
    Ok(string_of(&out))
}

/// A template without tags renders to its own text, whatever the data and
/// the registered partials: `parse` turns a text with no `{{` and no `\\`
/// (a lone `{` included) into entries of which this holds, and `eval`
/// renders them.
pub proof fn lemma_plain_text_renders_to_itself<'a>(
    text: Seq<char>,
    template: Seq<HBEntry>,
    data: &'a HBData,
    ec: EvalContext,
)
    requires
        plain_text(text),
        raw_only(template, text),
    ensures
        render_template(template, data, ec) == Ok::<Seq<char>, Fault>(text),
{
    let env = root_env(data);
    if text.len() > 0 {
        let e = template[0];
        let rest = render_entries(template, 1, env, 0, ec);
        assert(rest.out == Ok::<Seq<char>, Fault>(Seq::empty()));
        assert(choose_entry(e, env, 0, ec) == Choice::<'a>::Emit(text));
        assert(render_entry(e, env, 0, ec).out == Ok::<Seq<char>, Fault>(text));
        assert(text + Seq::<char>::empty() == text);
    } else {
        assert(text == Seq::<char>::empty());
    }
}

/// A partial call renders the partial's entries, one nesting level deeper,
/// with the indentation captured before the call put at the start of that
/// output and after every newline of it that another character follows
/// (the blanks before a standalone partial tag are not written themselves);
/// a partial that the partial calls is indented the same way inside it, so
/// its lines get both indentations.
pub proof fn lemma_partial_output_is_indented<'a>(
    exp: HBExpression,
    env: Env<'a>,
    depth: nat,
    ec: EvalContext,
)
    requires
        exp.base@.len() > 0,
        named(ec.partials@, join_path(exp.base@)) is Some,
        depth < MAX_PARTIAL_DEPTH,
    ensures
        ({
            let t = named(ec.partials@, join_path(exp.base@))->0;
            match choose_partial(exp, env, depth, ec) {
                Choice::Partial(es, env2, ind) => es == t@ && ind == indent_of(exp)
                    && render_entry(HBEntry::Partial(exp), env, depth, ec).out
                        == indent_out(render_entries(t@, 0, env2, depth + 1, ec).out, indent_of(exp)),
                _ => false,
            }
        }),
{
}

/// Indented text puts the indentation after each newline that more text
/// follows, and after no other character: splitting the text at a newline
/// (with no newline just before it) splits the indented text the same way.
pub proof fn lemma_indent_after_each_line(a: Seq<char>, b: Seq<char>, ind: Seq<char>)
    requires
        b.len() > 0,
        a.len() == 0 || a.last() != '\n',
    ensures
        indent_text(a + seq!['\n'] + b, ind) == indent_text(a, ind) + seq!['\n'] + ind + indent_text(b, ind),
        indent_text(a + seq!['\n'], ind) == indent_text(a, ind) + seq!['\n'],
    decreases a.len(),
{
    if a.len() == 0 {
        let nb = seq!['\n'] + b;
        assert(a + seq!['\n'] + b == nb);
        assert(nb[0] == '\n');
        assert(nb.drop_first() == b);
        assert(indent_text(nb, ind) == seq!['\n'] + ind + indent_text(b, ind));
        assert(a + seq!['\n'] == seq!['\n']);
        assert(seq!['\n'].drop_first() == Seq::<char>::empty());
        assert(indent_text(Seq::<char>::empty(), ind) == Seq::<char>::empty());
        assert(indent_text(a, ind) == Seq::<char>::empty());
        assert(indent_text(seq!['\n'], ind) == seq!['\n'] + indent_text(Seq::<char>::empty(), ind));
        assert(Seq::<char>::empty() + seq!['\n'] + ind + indent_text(b, ind) == seq!['\n'] + ind + indent_text(b, ind));
        assert(Seq::<char>::empty() + seq!['\n'] == seq!['\n']);
        assert(seq!['\n'] + Seq::<char>::empty() == seq!['\n']);
    } else {
        if a.len() > 1 {
            assert(a.drop_first().last() == a.last());
        }
        lemma_indent_after_each_line(a.drop_first(), b, ind);
        assert((a + seq!['\n'] + b).drop_first() == a.drop_first() + seq!['\n'] + b);
        assert((a + seq!['\n']).drop_first() == a.drop_first() + seq!['\n']);
        assert((a + seq!['\n'] + b)[0] == a[0]);
        assert((a + seq!['\n'])[0] == a[0]);
        if a[0] == '\n' && a.len() > 1 {
            assert(indent_text(a, ind) == seq!['\n'] + ind + indent_text(a.drop_first(), ind));
        } else if a[0] == '\n' {
            assert(a.drop_first() == Seq::<char>::empty());
            assert(indent_text(a, ind) == seq![a[0]] + indent_text(a.drop_first(), ind));
        } else {
            assert(indent_text(a, ind) == seq![a[0]] + indent_text(a.drop_first(), ind));
        }
    }
}

} // verus!
