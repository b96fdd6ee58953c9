//! Intervals, ports, bundle liveness and accesses, parameters and events.
use vstd::prelude::*;
use vstd::string::StringExecFns;

use crate::ast::decimal;

use crate::ir::{
    bind_keys, eval, expr_node_wf, exprs_wf, is_point, lemma_point_extends_all, lemma_eval_extends, lemma_eval_extends_all, lemma_pos_from,
    lemma_time_val_extends, pos_from, prefix_of, sub_node, subst_env, Bind, Component, Expr, ExprIdx,
    Foreign, InfoIdx, InstIdx, InvIdx, Op, ParamIdx, PortIdx, TimeIdx,
};

verus! {

/// An interval of time.
#[derive(Clone, Copy, PartialEq, Eq, Debug, Structural)]
pub struct Range {
    pub start: TimeIdx,
    pub end: TimeIdx,
}

/// Direction of a port.
#[derive(Clone, Copy, PartialEq, Eq, Debug, Structural)]
pub enum Direction {
    In,
    Out,
}

impl Direction {
    /// Check if this is an output.
    pub fn is_out(&self) -> (r: bool)
        ensures
            r == (*self == Direction::Out),
    {
        matches!(self, Direction::Out)
    }

    /// Check if this is an input.
    pub fn is_in(&self) -> (r: bool)
        ensures
            r == (*self == Direction::In),
    {
        matches!(self, Direction::In)
    }

    /// How the direction reads in diagnostics: `in` or `out`.
    pub fn text(&self) -> (r: String)
        ensures
            r@ == (if *self == Direction::In {
                seq!['i', 'n']
            } else {
                seq!['o', 'u', 't']
            }),
    {
        let r = match self {
            Direction::In => String::from_str("in"),
            Direction::Out => String::from_str("out"),
        };
        proof {
            reveal_strlit("in");
            reveal_strlit("out");
        }
        r
    }

    /// The opposite direction.
    pub fn reverse(&self) -> (r: Self)
        ensures
            r != *self,
    {
        match self {
            Direction::In => Direction::Out,
            Direction::Out => Direction::In,
        }
    }
}

/// The context in which a port was defined.
#[derive(Clone, Copy, PartialEq, Eq, Debug)]
pub enum PortOwner {
    /// Declared on the signature. The direction is stored as seen from inside
    /// the component, the reverse of the external view.
    Sig { dir: Direction },
    /// Created by an invocation; `base` is the callee's signature port.
    Inv { inv: InvIdx, dir: Direction, base: Foreign<PortIdx> },
    /// Declared in the body; it may be both read and written.
    Local,
}

impl PortOwner {
    /// Input on the signature.
    pub fn sig_in() -> (r: Self)
        ensures
            r == (PortOwner::Sig { dir: Direction::In }),
    {
        PortOwner::Sig { dir: Direction::In }
    }

    /// Output on the signature.
    pub fn sig_out() -> (r: Self)
        ensures
            r == (PortOwner::Sig { dir: Direction::Out }),
    {
        PortOwner::Sig { dir: Direction::Out }
    }

    /// An input port created by an invocation.
    pub fn inv_in(inv: InvIdx, base: Foreign<PortIdx>) -> (r: Self)
        ensures
            r == (PortOwner::Inv { inv, dir: Direction::In, base }),
    {
        PortOwner::Inv { inv, dir: Direction::In, base }
    }

    /// An output port created by an invocation.
    pub fn inv_out(inv: InvIdx, base: Foreign<PortIdx>) -> (r: Self)
        ensures
            r == (PortOwner::Inv { inv, dir: Direction::Out, base }),
    {
        PortOwner::Inv { inv, dir: Direction::Out, base }
    }

    /// Check if this is an input port created by an invocation.
    pub fn is_inv_in(&self) -> (r: bool)
        ensures
            r == (*self matches PortOwner::Inv { dir: Direction::In, .. }),
    {
        matches!(self, PortOwner::Inv { dir: Direction::In, .. })
    }
}

/// Liveness of a bundle: one index parameter and one length per dimension,
/// and the interval during which the element at those indices is valid.
#[derive(Debug, PartialEq, Eq)]
pub struct Liveness {
    pub idxs: Vec<ParamIdx>,
    pub lens: Vec<ExprIdx>,
    pub range: Range,
}

impl Liveness {
    /// Handles point into arenas of `ne` expressions and `nt` time points,
    /// and there is one length per index.
    pub open spec fn wf_in(&self, ne: int, nt: int) -> bool {
        &&& self.idxs@.len() == self.lens@.len()
        &&& forall|k: int| 0 <= k < self.lens@.len() ==> (#[trigger] self.lens@[k]).idx < ne
        &&& self.range.start.idx < nt
        &&& self.range.end.idx < nt
    }

    /// `self`, living in `c1`, is the liveness of the slice `ranges` of the
    /// bundle liveness `live` of `c0`: the same indices, each length is
    /// `end - start`, and its interval is that of `live` where each index is
    /// replaced by the start of a unit range, or shifted by the start of any
    /// other range.
    pub open spec fn sliced_from(
        &self,
        c0: &Component,
        c1: &Component,
        live: &Liveness,
        ranges: Seq<(ExprIdx, ExprIdx)>,
    ) -> bool {
        &&& self.wf_in(c1.exprs@.len() as int, c1.times@.len() as int)
        &&& self.idxs@ == live.idxs@
        &&& self.lens@.len() == ranges.len()
        &&& forall|k: int, env: spec_fn(ParamIdx) -> int|
            0 <= k < ranges.len() ==> #[trigger] eval(c1.exprs@, self.lens@[k].idx as int, env)
                == eval(c0.exprs@, ranges[k].1.idx as int, env) - eval(
                c0.exprs@,
                ranges[k].0.idx as int,
                env,
            )
        &&& forall|env: spec_fn(ParamIdx) -> int| #[trigger]
            c1.time_val(self.range.start, env) == c0.time_val(
                live.range.start,
                slice_env(c0.exprs@, live.idxs@, ranges, env),
            )
        &&& forall|env: spec_fn(ParamIdx) -> int| #[trigger]
            c1.time_val(self.range.end, env) == c0.time_val(
                live.range.end,
                slice_env(c0.exprs@, live.idxs@, ranges, env),
            )
    }
}

/// The environment in which the whole bundle is read when the slice
/// `ranges` is read in `env`.
pub open spec fn slice_env(
    es: Seq<Expr>,
    idxs: Seq<ParamIdx>,
    ranges: Seq<(ExprIdx, ExprIdx)>,
    env: spec_fn(ParamIdx) -> int,
) -> spec_fn(ParamIdx) -> int {
    |p: ParamIdx|
        {
            let k = pos_from(idxs, p, 0);
            if 0 <= k < ranges.len() {
                if is_unit_range(es, ranges[k].0, ranges[k].1) {
                    eval(es, ranges[k].0.idx as int, env)
                } else {
                    env(p) + eval(es, ranges[k].0.idx as int, env)
                }
            } else {
                env(p)
            }
        }
}

/// `end` is syntactically one more than `start`: either `start + 1` (in
/// either order) or the literal that follows the literal `start`.
pub open spec fn is_unit_range(es: Seq<Expr>, start: ExprIdx, end: ExprIdx) -> bool {
    match es[end.idx as int] {
        Expr::Bin { op: Op::Add, lhs, rhs } => (lhs == start && es[rhs.idx as int]
            == Expr::Concrete(1)) || (rhs == start && es[lhs.idx as int] == Expr::Concrete(1)),
        Expr::Concrete(e) => match es[start.idx as int] {
            Expr::Concrete(s) => e == s + 1,
            _ => false,
        },
        _ => false,
    }
}

/// A port tracks its definition and liveness; it generalizes both bundles and
/// plain ports.
#[derive(Debug, PartialEq, Eq)]
pub struct Port {
    pub owner: PortOwner,
    pub width: ExprIdx,
    pub live: Liveness,
    pub info: InfoIdx,
}

impl Port {
    pub open spec fn wf_in(&self, ne: int, nt: int) -> bool {
        &&& self.width.idx < ne
        &&& self.live.wf_in(ne, nt)
    }

    pub proof fn lemma_wf_in_grow(&self, ne: int, nt: int, ne2: int, nt2: int)
        requires
            self.wf_in(ne, nt),
            ne <= ne2,
            nt <= nt2,
        ensures
            self.wf_in(ne2, nt2),
    {
    }

    pub open spec fn is_sig_in_spec(&self) -> bool {
        self.owner == (PortOwner::Sig { dir: Direction::Out })
    }

    pub open spec fn is_sig_out_spec(&self) -> bool {
        self.owner == (PortOwner::Sig { dir: Direction::In })
    }

    pub open spec fn is_inv_in_spec(&self) -> bool {
        self.owner matches PortOwner::Inv { dir: Direction::In, .. }
    }

    pub open spec fn is_inv_out_spec(&self) -> bool {
        self.owner matches PortOwner::Inv { dir: Direction::Out, .. }
    }

    pub open spec fn is_local_spec(&self) -> bool {
        self.owner == PortOwner::Local
    }

    /// Check if this is an invoke defined port.
    pub fn is_inv(&self) -> (r: bool)
        ensures
            r == (self.owner is Inv),
    {
        matches!(self.owner, PortOwner::Inv { .. })
    }

    /// Check if this is an input port defined by an invocation.
    pub fn is_inv_in(&self) -> (r: bool)
        ensures
            r == self.is_inv_in_spec(),
    {
        matches!(self.owner, PortOwner::Inv { dir: Direction::In, .. })
    }

    /// Check if this is an output port defined by an invocation.
    pub fn is_inv_out(&self) -> (r: bool)
        ensures
            r == self.is_inv_out_spec(),
    {
        matches!(self.owner, PortOwner::Inv { dir: Direction::Out, .. })
    }

    /// Check if this is a signature port.
    pub fn is_sig(&self) -> (r: bool)
        ensures
            r == (self.owner is Sig),
    {
        matches!(self.owner, PortOwner::Sig { .. })
    }

    /// Check if this is an input port on the signature (stored as `Out`).
    pub fn is_sig_in(&self) -> (r: bool)
        ensures
            r == self.is_sig_in_spec(),
    {
        matches!(self.owner, PortOwner::Sig { dir: Direction::Out })
    }

    /// Check if this is an output port on the signature (stored as `In`).
    pub fn is_sig_out(&self) -> (r: bool)
        ensures
            r == self.is_sig_out_spec(),
    {
        matches!(self.owner, PortOwner::Sig { dir: Direction::In })
    }

    /// Check if this is a local port.
    pub fn is_local(&self) -> (r: bool)
        ensures
            r == self.is_local_spec(),
    {
        matches!(self.owner, PortOwner::Local)
    }
}

/// Each port is exactly one of: a signature input, a signature output, an
/// invocation input, an invocation output, or a local port.
pub proof fn lemma_port_owner_exclusive(p: &Port)
    ensures
        (if p.is_sig_in_spec() { 1int } else { 0 }) + (if p.is_sig_out_spec() { 1int } else { 0 })
            + (if p.is_inv_in_spec() { 1int } else { 0 }) + (if p.is_inv_out_spec() { 1int } else {
            0
        }) + (if p.is_local_spec() { 1int } else { 0 }) == 1,
{
}

/// A port access in bundle syntax: one (inclusive, exclusive) range per
/// dimension.
#[derive(Debug, PartialEq, Eq)]
pub struct Access {
    pub port: PortIdx,
    pub ranges: Vec<(ExprIdx, ExprIdx)>,
}

/// Unit-range recognition does not change when the arena grows.
proof fn lemma_unit_extends(es: Seq<Expr>, es2: Seq<Expr>, s: ExprIdx, e: ExprIdx)
    requires
        exprs_wf(es),
        prefix_of(es, es2),
        s.idx < es.len(),
        e.idx < es.len(),
    ensures
        is_unit_range(es2, s, e) == is_unit_range(es, s, e),
{
    assert(es2[e.idx as int] == es[e.idx as int]);
    assert(es2[s.idx as int] == es[s.idx as int]);
    match es[e.idx as int] {
        Expr::Bin { lhs, rhs, .. } => {
            assert(es2[lhs.idx as int] == es[lhs.idx as int]);
            assert(es2[rhs.idx as int] == es[rhs.idx as int]);
        },
        _ => {},
    }
}

/// A recognised unit range has length exactly one.
pub proof fn lemma_unit_range_sound(es: Seq<Expr>, start: ExprIdx, end: ExprIdx)
    requires
        exprs_wf(es),
        start.idx < es.len(),
        end.idx < es.len(),
        is_unit_range(es, start, end),
    ensures
        forall|env: spec_fn(ParamIdx) -> int| #[trigger]
            eval(es, end.idx as int, env) == eval(es, start.idx as int, env) + 1,
{
    assert forall|env: spec_fn(ParamIdx) -> int| #[trigger]
        eval(es, end.idx as int, env) == eval(es, start.idx as int, env) + 1 by {
        match es[end.idx as int] {
            Expr::Bin { lhs, rhs, .. } => {
                assert(expr_node_wf(es[end.idx as int], end.idx as int));
                if lhs == start && es[rhs.idx as int] == Expr::Concrete(1) {
                    assert(eval(es, rhs.idx as int, env) == 1);
                } else {
                    assert(eval(es, lhs.idx as int, env) == 1);
                }
            },
            _ => {
                assert(eval(es, start.idx as int, env) == eval(es, start.idx as int, env));
            },
        }
    }
}

/// `start + 1` written as an addition with the literal one, in either order,
/// and a literal that follows a literal, are unit ranges.
pub proof fn lemma_unit_range_recognized(
    es: Seq<Expr>,
    start: ExprIdx,
    end: ExprIdx,
    one: ExprIdx,
)
    requires
        es[one.idx as int] == Expr::Concrete(1),
    ensures
        es[end.idx as int] == (Expr::Bin { op: Op::Add, lhs: start, rhs: one }) ==> is_unit_range(
            es,
            start,
            end,
        ),
        es[end.idx as int] == (Expr::Bin { op: Op::Add, lhs: one, rhs: start }) ==> is_unit_range(
            es,
            start,
            end,
        ),
        es[start.idx as int] is Concrete && es[end.idx as int] is Concrete && es[end.idx as int]->Concrete_0
            == es[start.idx as int]->Concrete_0 + 1 ==> is_unit_range(es, start, end),
{
}

impl Access {
    /// Handles point into `c`.
    pub open spec fn wf_in(&self, c: &Component) -> bool {
        &&& self.port.idx < c.ports@.len()
        &&& forall|k: int|
            0 <= k < self.ranges@.len() ==> (#[trigger] self.ranges@[k]).0.idx < c.exprs@.len()
                && self.ranges@[k].1.idx < c.exprs@.len()
    }

    /// Every range starts at a point expression.
    pub open spec fn starts_point(&self, c: &Component) -> bool {
        forall|k: int| 0 <= k < self.ranges@.len() ==> is_point(c.exprs@, (#[trigger] self.ranges@[k]).0.idx as int)
    }

    /// The access of the single element of a plain port: `[0, 1)`.
    pub fn port(port: PortIdx, ctx: &mut Component) -> (r: Self)
        requires
            old(ctx).wf(),
        ensures
            final(ctx).wf(),
            final(ctx).extends(old(ctx)),
            r.port == port,
            r.ranges@.len() == 1,
            r.ranges@[0].0.idx < final(ctx).exprs@.len(),
            r.ranges@[0].1.idx < final(ctx).exprs@.len(),
            final(ctx).exprs@[r.ranges@[0].0.idx as int] == Expr::Concrete(0),
            final(ctx).exprs@[r.ranges@[0].1.idx as int] == Expr::Concrete(1),
            is_unit_range(final(ctx).exprs@, r.ranges@[0].0, r.ranges@[0].1),
    {
        let zero = ctx.add_expr(Expr::Concrete(0));
        let one = ctx.add_expr(Expr::Concrete(1));
        Access { port, ranges: vec![(zero, one)] }
    }

    /// Syntactic check that `[start, end)` holds exactly one element. The
    /// arena always holds the literal 1 (see `Component::wf`).
    pub fn unit_range(start: ExprIdx, end: ExprIdx, ctx: &Component) -> (r: bool)
        requires
            ctx.wf(),
            start.idx < ctx.exprs@.len(),
            end.idx < ctx.exprs@.len(),
        ensures
            r == is_unit_range(ctx.exprs@, start, end),
    {
        match ctx.exprs[end.idx] {
            Expr::Bin { op: Op::Add, lhs, rhs } => {
                (lhs == start && ctx.exprs[rhs.idx] == Expr::Concrete(1)) || (rhs == start
                    && ctx.exprs[lhs.idx] == Expr::Concrete(1))
            },
            Expr::Concrete(e) => match ctx.exprs[start.idx] {
                Expr::Concrete(s) => s < u64::MAX && e == s + 1,
                _ => false,
            },
            _ => false,
        }
    }

    /// Whether the access certainly denotes one port: every range is a unit
    /// range. The check is syntactic and therefore conservative.
    pub fn is_port(&self, ctx: &Component) -> (r: bool)
        requires
            ctx.wf(),
            self.wf_in(ctx),
        ensures
            r == forall|k: int|
                0 <= k < self.ranges@.len() ==> #[trigger] is_unit_range(
                    ctx.exprs@,
                    self.ranges@[k].0,
                    self.ranges@[k].1,
                ),
    {
        let mut k: usize = 0;
        while k < self.ranges.len()
            invariant
                ctx.wf(),
                self.wf_in(ctx),
                k <= self.ranges@.len(),
                forall|j: int|
                    0 <= j < k ==> #[trigger] is_unit_range(
                        ctx.exprs@,
                        self.ranges@[j].0,
                        self.ranges@[j].1,
                    ),
            decreases self.ranges@.len() - k,
        {
            let (s, e) = self.ranges[k];
            if !Self::unit_range(s, e, ctx) {
                return false;
            }
            k = k + 1;
        }
        true
    }

    /// The liveness of the bundle that this access selects.
    pub fn bundle_typ(&self, ctx: &mut Component) -> (r: Liveness)
        requires
            old(ctx).wf(),
            self.wf_in(old(ctx)),
            self.ranges@.len() == old(ctx).ports@[self.port.idx as int].live.idxs@.len(),
        ensures
            final(ctx).wf(),
            final(ctx).extends(old(ctx)),
            r.sliced_from(old(ctx), final(ctx), &old(ctx).ports@[self.port.idx as int].live, self.ranges@),
            forall|k: int|
                0 <= k < self.ranges@.len() ==> final(ctx).exprs@[(#[trigger] r.lens@[k]).idx as int]
                    == sub_node(old(ctx).exprs@, self.ranges@[k].1, self.ranges@[k].0),
            ({
                let live = old(ctx).ports@[self.port.idx as int].live;
                old(ctx).time_is_point(live.range.start) && old(ctx).time_is_point(live.range.end)
                    && self.starts_point(old(ctx)) ==> final(ctx).time_is_point(r.range.start)
                    && final(ctx).time_is_point(r.range.end)
            }),
    {
        let ghost c0 = *ctx;
        let ghost live = c0.ports@[self.port.idx as int].live;
        let idxs = copy_params(&ctx.ports[self.port.idx].live.idxs);
        let range = ctx.ports[self.port.idx].live.range;
        let mut pairs: Vec<(ParamIdx, ExprIdx)> = Vec::new();
        let mut k: usize = 0;
        while k < self.ranges.len()
            invariant
                ctx.wf(),
                ctx.extends(&c0),
                c0.wf(),
                self.wf_in(&c0),
                idxs@ == live.idxs@,
                idxs@.len() == self.ranges@.len(),
                k <= self.ranges@.len(),
                pairs@.len() == k,
                forall|j: int|
                    0 <= j < k ==> (#[trigger] pairs@[j]).0 == idxs@[j] && pairs@[j].1.idx
                        < ctx.exprs@.len(),
                self.starts_point(&c0) ==> forall|j: int|
                    0 <= j < k ==> is_point(ctx.exprs@, (#[trigger] pairs@[j]).1.idx as int),
                forall|j: int, env: spec_fn(ParamIdx) -> int|
                    0 <= j < k ==> #[trigger] eval(ctx.exprs@, pairs@[j].1.idx as int, env) == (
                    if is_unit_range(c0.exprs@, self.ranges@[j].0, self.ranges@[j].1) {
                        eval(c0.exprs@, self.ranges@[j].0.idx as int, env)
                    } else {
                        env(idxs@[j]) + eval(c0.exprs@, self.ranges@[j].0.idx as int, env)
                    }),
            decreases self.ranges@.len() - k,
        {
            let (s, e) = self.ranges[k];
            let idx = idxs[k];
            let ghost cb = *ctx;
            proof {
                lemma_unit_extends(c0.exprs@, ctx.exprs@, s, e);
                lemma_eval_extends_all(c0.exprs@, ctx.exprs@);
                lemma_point_extends_all(c0.exprs@, ctx.exprs@);
                if self.starts_point(&c0) {
                    assert(is_point(c0.exprs@, self.ranges@[k as int].0.idx as int));
                }
            }
            if Self::unit_range(s, e, ctx) {
                pairs.push((idx, s));
            } else {
                let pe = idx.expr(ctx);
                let ghost cm = *ctx;
                let a = pe.add(s, ctx);
                proof {
                    lemma_point_extends_all(cb.exprs@, ctx.exprs@);
                    lemma_point_extends_all(cb.exprs@, cm.exprs@);
                    lemma_eval_extends_all(cb.exprs@, ctx.exprs@);
                    lemma_eval_extends_all(cb.exprs@, cm.exprs@);
                    assert forall|env: spec_fn(ParamIdx) -> int| #[trigger]
                        eval(ctx.exprs@, a.idx as int, env) == env(idxs@[k as int]) + eval(
                            c0.exprs@,
                            self.ranges@[k as int].0.idx as int,
                            env,
                        ) by {
                        assert(eval(cm.exprs@, pe.idx as int, env) == env(idx));
                        assert(eval(cm.exprs@, s.idx as int, env) == eval(cb.exprs@, s.idx as int, env));
                    }
                }
                pairs.push((idx, a));
            }
            k = k + 1;
        }
        let bind = Bind::new(pairs);
        let ghost cb = *ctx;
        proof {
            lemma_point_extends_all(c0.exprs@, cb.exprs@);
            assert(cb.times@[range.start.idx as int] == c0.times@[range.start.idx as int]);
            assert(cb.times@[range.end.idx as int] == c0.times@[range.end.idx as int]);
            assert(bind_keys(bind.pairs@) =~= live.idxs@);
            lemma_eval_extends_all(c0.exprs@, cb.exprs@);
            assert forall|env: spec_fn(ParamIdx) -> int|
                subst_env(cb.exprs@, bind.pairs@, env) =~= slice_env(
                    c0.exprs@,
                    live.idxs@,
                    self.ranges@,
                    env,
                ) by {
                assert forall|q: ParamIdx|
                    #[trigger] subst_env(cb.exprs@, bind.pairs@, env)(q) == slice_env(
                        c0.exprs@,
                        live.idxs@,
                        self.ranges@,
                        env,
                    )(q) by {
                    lemma_pos_from(live.idxs@, q, 0);
                    let j = pos_from(live.idxs@, q, 0);
                    if 0 <= j < self.ranges@.len() {
                        assert(eval(cb.exprs@, bind.pairs@[j].1.idx as int, env) == (
                        if is_unit_range(c0.exprs@, self.ranges@[j].0, self.ranges@[j].1) {
                            eval(c0.exprs@, self.ranges@[j].0.idx as int, env)
                        } else {
                            env(idxs@[j]) + eval(c0.exprs@, self.ranges@[j].0.idx as int, env)
                        }));
                    }
                }
            }
            lemma_time_val_extends(&c0, &cb, range.start);
            lemma_time_val_extends(&c0, &cb, range.end);
        }
        let new_range = range.fold_with(ctx, &bind);
        let ghost cr = *ctx;
        let mut lens: Vec<ExprIdx> = Vec::new();
        let mut k: usize = 0;
        while k < self.ranges.len()
            invariant
                ctx.wf(),
                ctx.extends(&cr),
                cr.extends(&c0),
                c0.wf(),
                cr.wf(),
                self.wf_in(&c0),
                new_range.start.idx < cr.times@.len(),
                new_range.end.idx < cr.times@.len(),
                cr.time_is_point(new_range.start) ==> ctx.time_is_point(new_range.start),
                cr.time_is_point(new_range.end) ==> ctx.time_is_point(new_range.end),
                k <= self.ranges@.len(),
                lens@.len() == k,
                forall|j: int| 0 <= j < k ==> (#[trigger] lens@[j]).idx < ctx.exprs@.len(),
                forall|j: int|
                    0 <= j < k ==> ctx.exprs@[(#[trigger] lens@[j]).idx as int] == sub_node(
                        c0.exprs@,
                        self.ranges@[j].1,
                        self.ranges@[j].0,
                    ),
                forall|j: int, env: spec_fn(ParamIdx) -> int|
                    0 <= j < k ==> #[trigger] eval(ctx.exprs@, lens@[j].idx as int, env) == eval(
                        c0.exprs@,
                        self.ranges@[j].1.idx as int,
                        env,
                    ) - eval(c0.exprs@, self.ranges@[j].0.idx as int, env),
            decreases self.ranges@.len() - k,
        {
            let (s, e) = self.ranges[k];
            let ghost cb = *ctx;
            proof {
                lemma_eval_extends_all(c0.exprs@, ctx.exprs@);
            }
            let l = e.sub(s, ctx);
            proof {
                lemma_point_extends_all(cb.exprs@, ctx.exprs@);
                assert(ctx.times@[new_range.start.idx as int] == cb.times@[new_range.start.idx as int]);
                assert(ctx.times@[new_range.end.idx as int] == cb.times@[new_range.end.idx as int]);
                lemma_eval_extends_all(cb.exprs@, ctx.exprs@);
                assert(cb.exprs@[e.idx as int] == c0.exprs@[e.idx as int]);
                assert(cb.exprs@[s.idx as int] == c0.exprs@[s.idx as int]);
                assert forall|j: int| 0 <= j < k implies ctx.exprs@[(#[trigger] lens@[j]).idx as int]
                    == sub_node(c0.exprs@, self.ranges@[j].1, self.ranges@[j].0) by {
                    assert(ctx.exprs@[lens@[j].idx as int] == cb.exprs@[lens@[j].idx as int]);
                }
            }
            lens.push(l);
            k = k + 1;
        }
        proof {
            lemma_time_val_extends(&cr, ctx, new_range.start);
            lemma_time_val_extends(&cr, ctx, new_range.end);
        }
        Liveness { idxs, lens, range: new_range }
    }
}

/// A copy of a list of parameter handles.
fn copy_params(v: &Vec<ParamIdx>) -> (r: Vec<ParamIdx>)
    ensures
        r@ == v@,
{
    let mut r: Vec<ParamIdx> = Vec::new();
    let mut i: usize = 0;
    while i < v.len()
        invariant
            i <= v@.len(),
            r@ == v@.subrange(0, i as int),
        decreases v@.len() - i,
    {
        r.push(v[i]);
        i = i + 1;
    }
    assert(r@ =~= v@);
    r
}

/// Construct that defines a parameter.
#[derive(Clone, Copy, PartialEq, Eq, Debug)]
pub enum ParamOwner {
    /// Defined by the signature (passed in when instantiated).
    Sig,
    /// Owned by an `exists` binding; `opaque` marks it as instance-specific.
    Exists { opaque: bool },
    /// Mirrors a parameter of the instantiated component.
    Instance { inst: InstIdx, base: Foreign<ParamIdx> },
    /// The index of a bundle dimension.
    Bundle(PortIdx),
    /// Loop induction variable.
    Loop,
}

/// Relies on the `Display` impl of `usize` through `ToString`: the decimal
/// digits of the number.
#[verifier::external_body]
fn decimal_text(n: usize) -> (r: String)
    ensures
        r@ == decimal(n as nat),
{
    n.to_string()
}

/// What binds a parameter, as shown in diagnostics.
pub open spec fn owner_text(o: ParamOwner) -> Seq<char> {
    match o {
        ParamOwner::Sig => seq!['s', 'i', 'g'],
        ParamOwner::Exists { opaque } => if opaque {
            seq!['o', 'p', 'a', 'q', 'u', 'e']
        } else {
            seq!['s', 'o', 'm', 'e']
        },
        ParamOwner::Instance { inst, .. } => decimal(inst.idx as nat),
        ParamOwner::Bundle(port) => decimal(port.idx as nat),
        ParamOwner::Loop => seq!['l', 'o', 'o', 'p'],
    }
}

impl ParamOwner {
    /// What binds the parameter, as shown in diagnostics: `sig`, `opaque`,
    /// `some`, `loop`, or the handle of the instance or bundle port.
    pub fn text(&self) -> (r: String)
        ensures
            r@ == owner_text(*self),
    {
        let r = match self {
            ParamOwner::Sig => String::from_str("sig"),
            ParamOwner::Exists { opaque } => if *opaque {
                String::from_str("opaque")
            } else {
                String::from_str("some")
            },
            ParamOwner::Instance { inst, .. } => decimal_text(inst.idx),
            ParamOwner::Bundle(port) => decimal_text(port.idx),
            ParamOwner::Loop => String::from_str("loop"),
        };
        proof {
            reveal_strlit("sig");
            reveal_strlit("opaque");
            reveal_strlit("some");
            reveal_strlit("loop");
        }
        r
    }

    /// The owner of the index parameter of a dimension of `port`.
    pub fn bundle(port: PortIdx) -> (r: Self)
        ensures
            r == ParamOwner::Bundle(port),
    {
        ParamOwner::Bundle(port)
    }
}

/// A parameter: only a name, tagged by what binds it.
#[derive(Clone, Copy, PartialEq, Eq, Debug)]
pub struct Param {
    pub owner: ParamOwner,
    pub info: InfoIdx,
}

impl Param {
    /// A parameter bound by `owner`.
    pub fn new(owner: ParamOwner, info: InfoIdx) -> (r: Self)
        ensures
            r.owner == owner,
            r.info == info,
    {
        Param { owner, info }
    }

    /// Check if the signature binds this parameter.
    pub fn is_sig_owned(&self) -> (r: bool)
        ensures
            r == (self.owner is Sig),
    {
        matches!(self.owner, ParamOwner::Sig)
    }

    /// A loop index is local to its loop.
    pub fn is_local(&self) -> (r: bool)
        ensures
            r == (self.owner is Loop),
    {
        matches!(self.owner, ParamOwner::Loop)
    }
}

impl ParamIdx {
    /// The interned expression that refers to this parameter.
    pub fn expr(self, ctx: &mut Component) -> (r: ExprIdx)
        requires
            old(ctx).wf(),
        ensures
            final(ctx).wf(),
            final(ctx).extends(old(ctx)),
            r.idx < final(ctx).exprs@.len(),
            final(ctx).exprs@[r.idx as int] == Expr::Param(self),
            is_point(final(ctx).exprs@, r.idx as int),
            forall|env: spec_fn(ParamIdx) -> int| #[trigger]
                eval(final(ctx).exprs@, r.idx as int, env) == env(self),
    {
        ctx.add_expr(Expr::Param(self))
    }
}

/// A symbolic delay.
#[derive(Clone, Copy, PartialEq, Eq, Debug, Structural)]
pub enum TimeSub {
    /// A fixed number of cycles.
    Unit(ExprIdx),
    /// The distance between two time points.
    Sym { l: TimeIdx, r: TimeIdx },
}

/// An event with its delay; `has_interface` marks an event exposed for
/// external synchronization.
#[derive(Clone, Copy, PartialEq, Eq, Debug, Structural)]
pub struct Event {
    pub delay: TimeSub,
    pub info: InfoIdx,
    pub has_interface: bool,
}


/// `env` with `p` standing for `v`.
pub open spec fn set_env(env: spec_fn(ParamIdx) -> int, p: ParamIdx, v: int) -> spec_fn(
    ParamIdx,
) -> int {
    |q: ParamIdx|
        if q == p {
            v
        } else {
            env(q)
        }
}

/// Every port of a well-formed component has one length per index.
pub proof fn lemma_port_shape(c: &Component, p: PortIdx)
    requires
        c.wf(),
        p.idx < c.ports@.len(),
    ensures
        c.ports@[p.idx as int].live.idxs@.len() == c.ports@[p.idx as int].live.lens@.len(),
{
    assert(c.ports@[p.idx as int].wf_in(c.exprs@.len() as int, c.times@.len() as int));
}

/// Slicing a one-dimensional bundle: the slice `[a, b)` has length `b - a`;
/// when it is not a unit range, its element `i` lives when the bundle's
/// element `a + i` lives; a unit range `[a, a + 1)` lives when element `a`
/// of the bundle lives.
pub proof fn lemma_slice_one_dim(
    c0: &Component,
    c1: &Component,
    live: &Liveness,
    ranges: Seq<(ExprIdx, ExprIdx)>,
    l: &Liveness,
    env: spec_fn(ParamIdx) -> int,
    i: int,
)
    requires
        l.sliced_from(c0, c1, live, ranges),
        live.idxs@.len() == 1,
        ranges.len() == 1,
    ensures
        eval(c1.exprs@, l.lens@[0].idx as int, env) == eval(c0.exprs@, ranges[0].1.idx as int, env)
            - eval(c0.exprs@, ranges[0].0.idx as int, env),
        !is_unit_range(c0.exprs@, ranges[0].0, ranges[0].1) ==> {
            let at_i = set_env(env, live.idxs@[0], i);
            let shifted = set_env(
                env,
                live.idxs@[0],
                eval(c0.exprs@, ranges[0].0.idx as int, at_i) + i,
            );
            &&& c1.time_val(l.range.start, at_i) == c0.time_val(live.range.start, shifted)
            &&& c1.time_val(l.range.end, at_i) == c0.time_val(live.range.end, shifted)
        },
        is_unit_range(c0.exprs@, ranges[0].0, ranges[0].1) ==> {
            let fixed = set_env(env, live.idxs@[0], eval(c0.exprs@, ranges[0].0.idx as int, env));
            &&& c1.time_val(l.range.start, env) == c0.time_val(live.range.start, fixed)
            &&& c1.time_val(l.range.end, env) == c0.time_val(live.range.end, fixed)
        },
{
    let idx = live.idxs@[0];
    let s = ranges[0].0;
    let e = ranges[0].1;
    assert forall|q: ParamIdx| #[trigger] pos_from(live.idxs@, q, 0) == if q == idx {
        0int
    } else {
        -1int
    } by {
        if q != idx {
            assert(pos_from(live.idxs@, q, 1) == -1);
        }
    }
    if is_unit_range(c0.exprs@, s, e) {
        let fixed = set_env(env, idx, eval(c0.exprs@, s.idx as int, env));
        assert forall|q: ParamIdx|
            #[trigger] slice_env(c0.exprs@, live.idxs@, ranges, env)(q) == fixed(q) by {
            assert(pos_from(live.idxs@, q, 0) == if q == idx {
                0int
            } else {
                -1int
            });
        }
        assert(slice_env(c0.exprs@, live.idxs@, ranges, env) =~= fixed);
    } else {
        let at_i = set_env(env, idx, i);
        let shifted = set_env(env, idx, eval(c0.exprs@, s.idx as int, at_i) + i);
        assert forall|q: ParamIdx|
            #[trigger] slice_env(c0.exprs@, live.idxs@, ranges, at_i)(q) == shifted(q) by {
            assert(pos_from(live.idxs@, q, 0) == if q == idx {
                0int
            } else {
                -1int
            });
        }
        assert(slice_env(c0.exprs@, live.idxs@, ranges, at_i) =~= shifted);
    }
}
} // verus!
