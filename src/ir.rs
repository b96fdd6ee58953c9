//! Component-owned arenas of interned IR nodes, the meaning of expressions
//! and time points, and capture-avoiding substitution over them.
use vstd::prelude::*;

use crate::structure::{Event, Param, Port, Range};

verus! {

/// Handle to an expression in a component's arena.
#[derive(Clone, Copy, PartialEq, Eq, Debug, Structural)]
pub struct ExprIdx {
    pub idx: usize,
}

/// Handle to a parameter in a component's arena.
#[derive(Clone, Copy, PartialEq, Eq, Debug, Structural)]
pub struct ParamIdx {
    pub idx: usize,
}

/// Handle to a port in a component's arena.
#[derive(Clone, Copy, PartialEq, Eq, Debug, Structural)]
pub struct PortIdx {
    pub idx: usize,
}

/// Handle to a time point in a component's arena.
#[derive(Clone, Copy, PartialEq, Eq, Debug, Structural)]
pub struct TimeIdx {
    pub idx: usize,
}

/// Handle to an event in a component's arena.
#[derive(Clone, Copy, PartialEq, Eq, Debug, Structural)]
pub struct EventIdx {
    pub idx: usize,
}

/// Handle to an instance in a component.
#[derive(Clone, Copy, PartialEq, Eq, Debug, Structural)]
pub struct InstIdx {
    pub idx: usize,
}

/// Handle to an invocation in a component.
#[derive(Clone, Copy, PartialEq, Eq, Debug, Structural)]
pub struct InvIdx {
    pub idx: usize,
}

/// Opaque diagnostic handle carried unchanged through every transform.
#[derive(Clone, Copy, PartialEq, Eq, Debug, Structural)]
pub struct InfoIdx {
    pub idx: usize,
}

/// Identifies a component inside a program.
#[derive(Clone, Copy, PartialEq, Eq, Debug, Structural)]
pub struct CompIdx {
    pub idx: usize,
}

/// A handle that belongs to the arena of another component.
#[derive(Clone, Copy, PartialEq, Eq, Debug)]
pub struct Foreign<K> {
    pub key: K,
    pub owner: CompIdx,
}

/// Binary operators of the expression language.
#[derive(Clone, Copy, PartialEq, Eq, Debug, Structural)]
pub enum Op {
    Add,
    Sub,
    Mul,
    Div,
    Mod,
}

/// An expression node. Children are handles into the same arena.
#[derive(Clone, Copy, PartialEq, Eq, Debug, Structural)]
pub enum Expr {
    Param(ParamIdx),
    Concrete(u64),
    Bin { op: Op, lhs: ExprIdx, rhs: ExprIdx },
}

/// A time point: an event shifted by an offset expression.
#[derive(Clone, Copy, PartialEq, Eq, Debug, Structural)]
pub struct Time {
    pub event: EventIdx,
    pub offset: ExprIdx,
}

/// The value of a binary operator on integers (division by zero gives zero).
pub open spec fn apply_op(op: Op, l: int, r: int) -> int {
    match op {
        Op::Add => l + r,
        Op::Sub => l - r,
        Op::Mul => l * r,
        Op::Div => if r != 0 { l / r } else { 0 },
        Op::Mod => if r != 0 { l % r } else { 0 },
    }
}

/// The value of the expression at index `i` of `es` when each parameter `p`
/// stands for `env(p)`.
pub open spec fn eval(es: Seq<Expr>, i: int, env: spec_fn(ParamIdx) -> int) -> int
    decreases i,
{
    if 0 <= i < es.len() {
        match es[i] {
            Expr::Param(p) => env(p),
            Expr::Concrete(v) => v as int,
            Expr::Bin { op, lhs, rhs } => if lhs.idx < i && rhs.idx < i {
                apply_op(op, eval(es, lhs.idx as int, env), eval(es, rhs.idx as int, env))
            } else {
                0
            },
        }
    } else {
        0
    }
}

/// An expression node only refers to nodes allocated before it.
pub open spec fn expr_node_wf(e: Expr, bound: int) -> bool {
    match e {
        Expr::Bin { lhs, rhs, .. } => lhs.idx < bound && rhs.idx < bound,
        _ => true,
    }
}

pub open spec fn exprs_wf(es: Seq<Expr>) -> bool {
    forall|i: int| 0 <= i < es.len() ==> expr_node_wf(#[trigger] es[i], i)
}

/// `a` is an initial segment of `b`.
pub open spec fn prefix_of<T>(a: Seq<T>, b: Seq<T>) -> bool {
    a.len() <= b.len() && forall|j: int| 0 <= j < a.len() ==> #[trigger] b[j] == a[j]
}

/// Evaluation of an old node does not change when the arena grows.
pub proof fn lemma_eval_extends(es: Seq<Expr>, es2: Seq<Expr>, i: int)
    requires
        0 <= i < es.len(),
        prefix_of(es, es2),
    ensures
        forall|env: spec_fn(ParamIdx) -> int| #[trigger] eval(es2, i, env) == eval(es, i, env),
    decreases i,
{
    assert(es2[i] == es[i]);
    match es[i] {
        Expr::Bin { lhs, rhs, .. } => {
            if lhs.idx < i && rhs.idx < i {
                lemma_eval_extends(es, es2, lhs.idx as int);
                lemma_eval_extends(es, es2, rhs.idx as int);
            }
        },
        _ => {},
    }
    assert forall|env: spec_fn(ParamIdx) -> int| #[trigger] eval(es2, i, env) == eval(es, i, env) by {
        match es[i] {
            Expr::Bin { lhs, rhs, .. } => {
                if lhs.idx < i && rhs.idx < i {
                    assert(eval(es2, lhs.idx as int, env) == eval(es, lhs.idx as int, env));
                    assert(eval(es2, rhs.idx as int, env) == eval(es, rhs.idx as int, env));
                }
            },
            _ => {},
        }
    }
}

/// Every node of a shorter arena evaluates the same in a longer one.
pub proof fn lemma_eval_extends_all(es: Seq<Expr>, es2: Seq<Expr>)
    requires
        prefix_of(es, es2),
    ensures
        forall|i: int, env: spec_fn(ParamIdx) -> int|
            0 <= i < es.len() ==> #[trigger] eval(es2, i, env) == eval(es, i, env),
{
    assert forall|i: int, env: spec_fn(ParamIdx) -> int|
        0 <= i < es.len() implies #[trigger] eval(es2, i, env) == eval(es, i, env) by {
        lemma_eval_extends(es, es2, i);
    }
}

/// The expression at `i` is a point expression: built from parameters,
/// literals, additions and subtractions only.
pub open spec fn is_point(es: Seq<Expr>, i: int) -> bool
    decreases i,
{
    if 0 <= i < es.len() {
        match es[i] {
            Expr::Bin { op, lhs, rhs } => (op == Op::Add || op == Op::Sub) && lhs.idx < i && rhs.idx
                < i && is_point(es, lhs.idx as int) && is_point(es, rhs.idx as int),
            _ => true,
        }
    } else {
        false
    }
}

/// Point form of an old node does not change when the arena grows.
pub proof fn lemma_point_extends(es: Seq<Expr>, es2: Seq<Expr>, i: int)
    requires
        0 <= i < es.len(),
        prefix_of(es, es2),
    ensures
        is_point(es2, i) == is_point(es, i),
    decreases i,
{
    assert(es2[i] == es[i]);
    match es[i] {
        Expr::Bin { lhs, rhs, .. } => {
            if lhs.idx < i && rhs.idx < i {
                lemma_point_extends(es, es2, lhs.idx as int);
                lemma_point_extends(es, es2, rhs.idx as int);
            }
        },
        _ => {},
    }
}

/// Every node of a shorter arena keeps its point form in a longer one.
pub proof fn lemma_point_extends_all(es: Seq<Expr>, es2: Seq<Expr>)
    requires
        prefix_of(es, es2),
    ensures
        forall|i: int| 0 <= i < es.len() ==> #[trigger] is_point(es2, i) == is_point(es, i),
{
    assert forall|i: int| 0 <= i < es.len() implies #[trigger] is_point(es2, i) == is_point(es, i) by {
        lemma_point_extends(es, es2, i);
    }
}

/// The first position at or after `k` where `s` holds `p`, or -1.
pub open spec fn pos_from(s: Seq<ParamIdx>, p: ParamIdx, k: int) -> int
    decreases s.len() - k,
{
    if k < 0 || k >= s.len() {
        -1
    } else if s[k] == p {
        k
    } else {
        pos_from(s, p, k + 1)
    }
}

pub proof fn lemma_pos_from(s: Seq<ParamIdx>, p: ParamIdx, k: int)
    ensures
        pos_from(s, p, k) == -1 || (k <= pos_from(s, p, k) < s.len() && s[pos_from(s, p, k)]
            == p),
    decreases s.len() - k,
{
    if !(k < 0 || k >= s.len()) && s[k] != p {
        lemma_pos_from(s, p, k + 1);
    }
}

/// The parameters that a binding replaces, in order.
pub open spec fn bind_keys(pairs: Seq<(ParamIdx, ExprIdx)>) -> Seq<ParamIdx> {
    pairs.map_values(|x: (ParamIdx, ExprIdx)| x.0)
}

/// The environment seen through a binding: a bound parameter takes the value of
/// its first replacement, evaluated in the outer environment (substitution is
/// simultaneous, so a replacement may mention the parameter it replaces).
pub open spec fn subst_env(
    es: Seq<Expr>,
    pairs: Seq<(ParamIdx, ExprIdx)>,
    env: spec_fn(ParamIdx) -> int,
) -> spec_fn(ParamIdx) -> int {
    |p: ParamIdx|
        {
            let k = pos_from(bind_keys(pairs), p, 0);
            if 0 <= k < pairs.len() {
                eval(es, pairs[k].1.idx as int, env)
            } else {
                env(p)
            }
        }
}

/// An ordered association of parameters to replacement expressions.
#[derive(Debug)]
pub struct Bind {
    pub pairs: Vec<(ParamIdx, ExprIdx)>,
}

impl Bind {
    pub fn new(pairs: Vec<(ParamIdx, ExprIdx)>) -> (r: Bind)
        ensures
            r.pairs@ == pairs@,
    {
        Bind { pairs }
    }

    /// Every replacement lives in an arena of `n` expressions.
    pub open spec fn wf_in(&self, n: int) -> bool {
        forall|k: int| 0 <= k < self.pairs@.len() ==> (#[trigger] self.pairs@[k]).1.idx < n
    }

    /// Every replacement is a point expression of `es`.
    pub open spec fn points_in(&self, es: Seq<Expr>) -> bool {
        forall|k: int| 0 <= k < self.pairs@.len() ==> is_point(es, (#[trigger] self.pairs@[k]).1.idx as int)
    }

    /// The replacement of `p`: the first pair that names it.
    pub fn lookup(&self, p: ParamIdx) -> (r: Option<ExprIdx>)
        ensures
            ({
                let k = pos_from(bind_keys(self.pairs@), p, 0);
                if 0 <= k < self.pairs@.len() {
                    r == Some(self.pairs@[k].1)
                } else {
                    r is None
                }
            }),
    {
        let ghost keys = bind_keys(self.pairs@);
        let mut i: usize = 0;
        while i < self.pairs.len()
            invariant
                0 <= i <= self.pairs@.len(),
                keys == bind_keys(self.pairs@),
                pos_from(keys, p, 0) == pos_from(keys, p, i as int),
            decreases self.pairs@.len() - i,
        {
            let (q, e) = self.pairs[i];
            assert(keys[i as int] == q);
            if q == p {
                return Some(e);
            }
            i = i + 1;
        }
        None
    }
}

/// The arenas of one component. Handles are only meaningful against the
/// component that produced them.
#[derive(Debug)]
pub struct Component {
    pub exprs: Vec<Expr>,
    pub times: Vec<Time>,
    pub params: Vec<Param>,
    pub ports: Vec<Port>,
    pub events: Vec<Event>,
}

impl Component {
    /// The value of time point `t` in `env`: its event and its offset.
    pub open spec fn time_val(&self, t: TimeIdx, env: spec_fn(ParamIdx) -> int) -> (
        EventIdx,
        int,
    ) {
        let time = self.times@[t.idx as int];
        (time.event, eval(self.exprs@, time.offset.idx as int, env))
    }

    /// Handles point into the arenas, nodes only refer to earlier nodes, and
    /// the literals 0 and 1 stand at the first two positions.
    /// The offset of time point `t` is a point expression.
    pub open spec fn time_is_point(&self, t: TimeIdx) -> bool {
        is_point(self.exprs@, self.times@[t.idx as int].offset.idx as int)
    }

    pub open spec fn wf(&self) -> bool {
        &&& exprs_wf(self.exprs@)
        &&& self.exprs@.len() >= 2
        &&& self.exprs@[0] == Expr::Concrete(0)
        &&& self.exprs@[1] == Expr::Concrete(1)
        &&& forall|i: int|
            0 <= i < self.times@.len() ==> (#[trigger] self.times@[i]).offset.idx
                < self.exprs@.len()
        &&& forall|i: int|
            0 <= i < self.ports@.len() ==> (#[trigger] self.ports@[i]).wf_in(
                self.exprs@.len() as int,
                self.times@.len() as int,
            )
    }

    /// `self` is `prev` with more expressions and time points appended.
    pub open spec fn extends(&self, prev: &Component) -> bool {
        &&& prefix_of(prev.exprs@, self.exprs@)
        &&& prefix_of(prev.times@, self.times@)
        &&& self.params@ == prev.params@
        &&& self.ports@ == prev.ports@
        &&& self.events@ == prev.events@
    }

    /// An empty component whose arena already holds the constants 0 and 1.
    pub fn new() -> (r: Component)
        ensures
            r.wf(),
            r.exprs@ == seq![Expr::Concrete(0), Expr::Concrete(1)],
            r.times@.len() == 0,
            r.params@.len() == 0,
            r.ports@.len() == 0,
            r.events@.len() == 0,
    {
        Component {
            exprs: vec![Expr::Concrete(0), Expr::Concrete(1)],
            times: Vec::new(),
            params: Vec::new(),
            ports: Vec::new(),
            events: Vec::new(),
        }
    }

    /// Look an expression up by value.
    pub fn find_expr(&self, e: &Expr) -> (r: Option<ExprIdx>)
        ensures
            match r {
                Some(i) => i.idx < self.exprs@.len() && self.exprs@[i.idx as int] == *e,
                None => forall|j: int| 0 <= j < self.exprs@.len() ==> self.exprs@[j] != *e,
            },
    {
        let mut i: usize = 0;
        while i < self.exprs.len()
            invariant
                0 <= i <= self.exprs@.len(),
                forall|j: int| 0 <= j < i ==> self.exprs@[j] != *e,
            decreases self.exprs@.len() - i,
        {
            if self.exprs[i] == *e {
                return Some(ExprIdx { idx: i });
            }
            i = i + 1;
        }
        None
    }

    /// Intern an expression: an equal node is reused, else the node is appended.
    pub fn add_expr(&mut self, e: Expr) -> (r: ExprIdx)
        requires
            old(self).wf(),
            expr_node_wf(e, old(self).exprs@.len() as int),
        ensures
            final(self).wf(),
            final(self).extends(old(self)),
            r.idx < final(self).exprs@.len(),
            final(self).exprs@[r.idx as int] == e,
    {
        match self.find_expr(&e) {
            Some(i) => i,
            None => {
                let n = self.exprs.len();
                self.exprs.push(e);
                assert(forall|i: int|
                    0 <= i < final(self).ports@.len() ==> (#[trigger] final(self).ports@[i]).wf_in(
                        final(self).exprs@.len() as int,
                        final(self).times@.len() as int,
                    )) by {
                    assert forall|i: int| 0 <= i < self.ports@.len() implies (
                    #[trigger] self.ports@[i]).wf_in(
                        self.exprs@.len() as int,
                        self.times@.len() as int,
                    ) by {
                        self.ports@[i].lemma_wf_in_grow(
                            old(self).exprs@.len() as int,
                            old(self).times@.len() as int,
                            self.exprs@.len() as int,
                            self.times@.len() as int,
                        );
                    }
                }
                ExprIdx { idx: n }
            },
        }
    }

    /// Look a time point up by value.
    pub fn find_time(&self, t: &Time) -> (r: Option<TimeIdx>)
        ensures
            match r {
                Some(i) => i.idx < self.times@.len() && self.times@[i.idx as int] == *t,
                None => forall|j: int| 0 <= j < self.times@.len() ==> self.times@[j] != *t,
            },
    {
        let mut i: usize = 0;
        while i < self.times.len()
            invariant
                0 <= i <= self.times@.len(),
                forall|j: int| 0 <= j < i ==> self.times@[j] != *t,
            decreases self.times@.len() - i,
        {
            if self.times[i] == *t {
                return Some(TimeIdx { idx: i });
            }
            i = i + 1;
        }
        None
    }

    /// Intern a time point.
    pub fn add_time(&mut self, t: Time) -> (r: TimeIdx)
        requires
            old(self).wf(),
            t.offset.idx < old(self).exprs@.len(),
        ensures
            final(self).wf(),
            final(self).extends(old(self)),
            r.idx < final(self).times@.len(),
            final(self).times@[r.idx as int] == t,
    {
        match self.find_time(&t) {
            Some(i) => i,
            None => {
                let n = self.times.len();
                self.times.push(t);
                assert forall|i: int| 0 <= i < self.ports@.len() implies (
                #[trigger] self.ports@[i]).wf_in(
                    self.exprs@.len() as int,
                    self.times@.len() as int,
                ) by {
                    self.ports@[i].lemma_wf_in_grow(
                        old(self).exprs@.len() as int,
                        old(self).times@.len() as int,
                        self.exprs@.len() as int,
                        self.times@.len() as int,
                    );
                }
                TimeIdx { idx: n }
            },
        }
    }

    /// Append a parameter.
    pub fn add_param(&mut self, p: Param) -> (r: ParamIdx)
        requires
            old(self).wf(),
        ensures
            final(self).wf(),
            final(self).exprs@ == old(self).exprs@,
            final(self).times@ == old(self).times@,
            final(self).ports@ == old(self).ports@,
            final(self).params@ == old(self).params@.push(p),
            r.idx == old(self).params@.len(),
    {
        let n = self.params.len();
        self.params.push(p);
        ParamIdx { idx: n }
    }

    /// Append a port whose handles point into this component.
    pub fn add_port(&mut self, p: Port) -> (r: PortIdx)
        requires
            old(self).wf(),
            p.wf_in(old(self).exprs@.len() as int, old(self).times@.len() as int),
        ensures
            final(self).wf(),
            final(self).exprs@ == old(self).exprs@,
            final(self).times@ == old(self).times@,
            final(self).params@ == old(self).params@,
            final(self).ports@ == old(self).ports@.push(p),
            r.idx == old(self).ports@.len(),
    {
        let n = self.ports.len();
        self.ports.push(p);
        PortIdx { idx: n }
    }

    /// Append an event.
    pub fn add_event(&mut self, e: Event) -> (r: EventIdx)
        requires
            old(self).wf(),
        ensures
            final(self).wf(),
            final(self).exprs@ == old(self).exprs@,
            final(self).times@ == old(self).times@,
            final(self).ports@ == old(self).ports@,
            final(self).events@ == old(self).events@.push(e),
            r.idx == old(self).events@.len(),
    {
        let n = self.events.len();
        self.events.push(e);
        EventIdx { idx: n }
    }

    /// Read an expression node.
    pub fn get_expr(&self, e: ExprIdx) -> (r: Expr)
        requires
            e.idx < self.exprs@.len(),
        ensures
            r == self.exprs@[e.idx as int],
    {
        self.exprs[e.idx]
    }
}

/// The node that `ExprIdx::sub` builds for `a - b`: the literal difference
/// when both are literals and it is not negative, else the subtraction.
pub open spec fn sub_node(es: Seq<Expr>, a: ExprIdx, b: ExprIdx) -> Expr {
    match (es[a.idx as int], es[b.idx as int]) {
        (Expr::Concrete(x), Expr::Concrete(y)) => if x >= y {
            Expr::Concrete((x - y) as u64)
        } else {
            Expr::Bin { op: Op::Sub, lhs: a, rhs: b }
        },
        _ => Expr::Bin { op: Op::Sub, lhs: a, rhs: b },
    }
}

/// The node that `ExprIdx::add` builds for `a + b`: the literal sum when both
/// are literals and it fits, else the addition.
pub open spec fn add_node(es: Seq<Expr>, a: ExprIdx, b: ExprIdx) -> Expr {
    match (es[a.idx as int], es[b.idx as int]) {
        (Expr::Concrete(x), Expr::Concrete(y)) => if x + y <= u64::MAX {
            Expr::Concrete((x + y) as u64)
        } else {
            Expr::Bin { op: Op::Add, lhs: a, rhs: b }
        },
        _ => Expr::Bin { op: Op::Add, lhs: a, rhs: b },
    }
}

/// Time points of a shorter arena keep their value in a longer one.
pub proof fn lemma_time_val_extends(c0: &Component, c1: &Component, t: TimeIdx)
    requires
        c0.wf(),
        c1.extends(c0),
        t.idx < c0.times@.len(),
    ensures
        forall|env: spec_fn(ParamIdx) -> int| #[trigger]
            c1.time_val(t, env) == c0.time_val(t, env),
{
    assert(c1.times@[t.idx as int] == c0.times@[t.idx as int]);
    lemma_eval_extends(c0.exprs@, c1.exprs@, c0.times@[t.idx as int].offset.idx as int);
}

impl ExprIdx {
    /// Is this expression the literal `v`?
    pub fn as_concrete(self, ctx: &Component) -> (r: Option<u64>)
        requires
            self.idx < ctx.exprs@.len(),
        ensures
            match ctx.exprs@[self.idx as int] {
                Expr::Concrete(v) => r == Some(v),
                _ => r is None,
            },
    {
        match ctx.exprs[self.idx] {
            Expr::Concrete(v) => Some(v),
            _ => None,
        }
    }

    /// `self + other`, folded to a literal when both are literals whose sum fits.
    pub fn add(self, other: ExprIdx, ctx: &mut Component) -> (r: ExprIdx)
        requires
            old(ctx).wf(),
            self.idx < old(ctx).exprs@.len(),
            other.idx < old(ctx).exprs@.len(),
        ensures
            final(ctx).wf(),
            final(ctx).extends(old(ctx)),
            r.idx < final(ctx).exprs@.len(),
            final(ctx).exprs@[r.idx as int] == add_node(old(ctx).exprs@, self, other),
            is_point(old(ctx).exprs@, self.idx as int) && is_point(old(ctx).exprs@, other.idx as int)
                ==> is_point(final(ctx).exprs@, r.idx as int),
            forall|env: spec_fn(ParamIdx) -> int| #[trigger]
                eval(final(ctx).exprs@, r.idx as int, env) == eval(
                    old(ctx).exprs@,
                    self.idx as int,
                    env,
                ) + eval(old(ctx).exprs@, other.idx as int, env),
    {
        let ghost c0 = *ctx;
        if let (Expr::Concrete(a), Expr::Concrete(b)) = (ctx.exprs[self.idx], ctx.exprs[other.idx]) {
            if a <= u64::MAX - b {
                let r = ctx.add_expr(Expr::Concrete(a + b));
                proof {
                    assert forall|env: spec_fn(ParamIdx) -> int| #[trigger]
                        eval(ctx.exprs@, r.idx as int, env) == eval(c0.exprs@, self.idx as int, env)
                            + eval(c0.exprs@, other.idx as int, env) by {
                        assert(eval(c0.exprs@, self.idx as int, env) == a);
                        assert(eval(c0.exprs@, other.idx as int, env) == b);
                    }
                }
                return r;
            }
        }
        let r = ctx.add_expr(Expr::Bin { op: Op::Add, lhs: self, rhs: other });
        proof {
            lemma_point_extends_all(c0.exprs@, ctx.exprs@);
            assert(is_point(ctx.exprs@, self.idx as int) == is_point(c0.exprs@, self.idx as int));
            assert(is_point(ctx.exprs@, other.idx as int) == is_point(c0.exprs@, other.idx as int));
            assert(expr_node_wf(ctx.exprs@[r.idx as int], r.idx as int));
            lemma_eval_extends_all(c0.exprs@, ctx.exprs@);
            assert forall|env: spec_fn(ParamIdx) -> int| #[trigger]
                eval(ctx.exprs@, r.idx as int, env) == eval(c0.exprs@, self.idx as int, env)
                    + eval(c0.exprs@, other.idx as int, env) by {
                assert(eval(ctx.exprs@, self.idx as int, env) == eval(c0.exprs@, self.idx as int, env));
                assert(eval(ctx.exprs@, other.idx as int, env) == eval(c0.exprs@, other.idx as int, env));
            }
        }
        r
    }

    /// `self - other`, folded to a literal when both are literals and the
    /// difference is not negative.
    pub fn sub(self, other: ExprIdx, ctx: &mut Component) -> (r: ExprIdx)
        requires
            old(ctx).wf(),
            self.idx < old(ctx).exprs@.len(),
            other.idx < old(ctx).exprs@.len(),
        ensures
            final(ctx).wf(),
            final(ctx).extends(old(ctx)),
            r.idx < final(ctx).exprs@.len(),
            final(ctx).exprs@[r.idx as int] == sub_node(old(ctx).exprs@, self, other),
            forall|env: spec_fn(ParamIdx) -> int| #[trigger]
                eval(final(ctx).exprs@, r.idx as int, env) == eval(
                    old(ctx).exprs@,
                    self.idx as int,
                    env,
                ) - eval(old(ctx).exprs@, other.idx as int, env),
    {
        let ghost c0 = *ctx;
        if let (Expr::Concrete(a), Expr::Concrete(b)) = (ctx.exprs[self.idx], ctx.exprs[other.idx]) {
            if a >= b {
                let r = ctx.add_expr(Expr::Concrete(a - b));
                proof {
                    assert forall|env: spec_fn(ParamIdx) -> int| #[trigger]
                        eval(ctx.exprs@, r.idx as int, env) == eval(c0.exprs@, self.idx as int, env)
                            - eval(c0.exprs@, other.idx as int, env) by {
                        assert(eval(c0.exprs@, self.idx as int, env) == a);
                        assert(eval(c0.exprs@, other.idx as int, env) == b);
                    }
                }
                return r;
            }
        }
        let r = ctx.add_expr(Expr::Bin { op: Op::Sub, lhs: self, rhs: other });
        proof {
            lemma_eval_extends_all(c0.exprs@, ctx.exprs@);
            assert forall|env: spec_fn(ParamIdx) -> int| #[trigger]
                eval(ctx.exprs@, r.idx as int, env) == eval(c0.exprs@, self.idx as int, env)
                    - eval(c0.exprs@, other.idx as int, env) by {
                assert(eval(ctx.exprs@, self.idx as int, env) == eval(c0.exprs@, self.idx as int, env));
                assert(eval(ctx.exprs@, other.idx as int, env) == eval(c0.exprs@, other.idx as int, env));
            }
        }
        r
    }

    /// Substitute the binding into this expression, building new nodes.
    pub fn fold_with(self, ctx: &mut Component, bind: &Bind) -> (r: ExprIdx)
        requires
            old(ctx).wf(),
            self.idx < old(ctx).exprs@.len(),
            bind.wf_in(old(ctx).exprs@.len() as int),
        ensures
            final(ctx).wf(),
            final(ctx).extends(old(ctx)),
            r.idx < final(ctx).exprs@.len(),
            forall|env: spec_fn(ParamIdx) -> int| #[trigger]
                eval(final(ctx).exprs@, r.idx as int, env) == eval(
                    old(ctx).exprs@,
                    self.idx as int,
                    subst_env(old(ctx).exprs@, bind.pairs@, env),
                ),
            is_point(old(ctx).exprs@, self.idx as int) && bind.points_in(old(ctx).exprs@) ==> is_point(
                final(ctx).exprs@,
                r.idx as int,
            ),
        decreases self.idx,
    {
        let ghost c0 = *ctx;
        match ctx.exprs[self.idx] {
            Expr::Param(p) => {
                let r = match bind.lookup(p) {
                    Some(x) => x,
                    None => self,
                };
                proof {
                    lemma_pos_from(bind_keys(bind.pairs@), p, 0);
                    assert forall|env: spec_fn(ParamIdx) -> int| #[trigger]
                        eval(ctx.exprs@, r.idx as int, env) == eval(
                            c0.exprs@,
                            self.idx as int,
                            subst_env(c0.exprs@, bind.pairs@, env),
                        ) by {
                        assert(eval(c0.exprs@, self.idx as int, subst_env(c0.exprs@, bind.pairs@, env))
                            == subst_env(c0.exprs@, bind.pairs@, env)(p));
                    }
                }
                r
            },
            Expr::Concrete(v) => {
                proof {
                    assert forall|env: spec_fn(ParamIdx) -> int| #[trigger]
                        eval(ctx.exprs@, self.idx as int, env) == eval(
                            c0.exprs@,
                            self.idx as int,
                            subst_env(c0.exprs@, bind.pairs@, env),
                        ) by {
                        assert(eval(c0.exprs@, self.idx as int, subst_env(c0.exprs@, bind.pairs@, env)) == v);
                        assert(eval(c0.exprs@, self.idx as int, env) == v);
                    }
                }
                self
            },
            Expr::Bin { op, lhs, rhs } => {
                let l = lhs.fold_with(ctx, bind);
                let ghost c1 = *ctx;
                let r = rhs.fold_with(ctx, bind);
                let ghost c2 = *ctx;
                let res = ctx.add_expr(Expr::Bin { op, lhs: l, rhs: r });
                proof {
                    lemma_point_extends_all(c0.exprs@, c1.exprs@);
                    lemma_point_extends_all(c1.exprs@, ctx.exprs@);
                    lemma_point_extends_all(c2.exprs@, ctx.exprs@);
                    if is_point(c0.exprs@, self.idx as int) && bind.points_in(c0.exprs@) {
                        assert(bind.points_in(c1.exprs@));
                        assert(is_point(c1.exprs@, rhs.idx as int));
                        assert(is_point(ctx.exprs@, l.idx as int));
                        assert(is_point(ctx.exprs@, r.idx as int));
                    }
                    lemma_eval_extends_all(c0.exprs@, c1.exprs@);
                    lemma_eval_extends_all(c1.exprs@, ctx.exprs@);
                    lemma_eval_extends_all(c2.exprs@, ctx.exprs@);
                    assert forall|env: spec_fn(ParamIdx) -> int| #[trigger]
                        eval(ctx.exprs@, res.idx as int, env) == eval(
                            c0.exprs@,
                            self.idx as int,
                            subst_env(c0.exprs@, bind.pairs@, env),
                        ) by {
                        let senv = subst_env(c0.exprs@, bind.pairs@, env);
                        assert forall|q: ParamIdx|
                            #[trigger] subst_env(c1.exprs@, bind.pairs@, env)(q) == senv(q) by {
                            let k = pos_from(bind_keys(bind.pairs@), q, 0);
                            if 0 <= k < bind.pairs@.len() {
                                assert(bind.pairs@[k].1.idx < c0.exprs@.len());
                            }
                        }
                        assert(subst_env(c1.exprs@, bind.pairs@, env) =~= senv);
                        assert(eval(ctx.exprs@, l.idx as int, env) == eval(c1.exprs@, l.idx as int, env));
                        assert(eval(c1.exprs@, l.idx as int, env) == eval(c0.exprs@, lhs.idx as int, senv));
                        assert(eval(ctx.exprs@, r.idx as int, env) == eval(c2.exprs@, r.idx as int, env));
                        assert(eval(c2.exprs@, r.idx as int, env) == eval(
                            c1.exprs@,
                            rhs.idx as int,
                            subst_env(c1.exprs@, bind.pairs@, env),
                        ));
                        assert(eval(c1.exprs@, rhs.idx as int, senv) == eval(c0.exprs@, rhs.idx as int, senv));
                        assert(eval(ctx.exprs@, res.idx as int, env) == apply_op(
                            op,
                            eval(ctx.exprs@, l.idx as int, env),
                            eval(ctx.exprs@, r.idx as int, env),
                        ));
                        assert(eval(c0.exprs@, self.idx as int, senv) == apply_op(
                            op,
                            eval(c0.exprs@, lhs.idx as int, senv),
                            eval(c0.exprs@, rhs.idx as int, senv),
                        ));
                    }
                }
                res
            },
        }
    }
}

impl TimeIdx {
    /// Substitute the binding into this time point's offset.
    pub fn fold_with(self, ctx: &mut Component, bind: &Bind) -> (r: TimeIdx)
        requires
            old(ctx).wf(),
            self.idx < old(ctx).times@.len(),
            bind.wf_in(old(ctx).exprs@.len() as int),
        ensures
            final(ctx).wf(),
            final(ctx).extends(old(ctx)),
            r.idx < final(ctx).times@.len(),
            forall|env: spec_fn(ParamIdx) -> int| #[trigger]
                final(ctx).time_val(r, env) == old(ctx).time_val(
                    self,
                    subst_env(old(ctx).exprs@, bind.pairs@, env),
                ),
            old(ctx).time_is_point(self) && bind.points_in(old(ctx).exprs@)
                ==> final(ctx).time_is_point(r),
    {
        let t = ctx.times[self.idx];
        let off = t.offset.fold_with(ctx, bind);
        let ghost c1 = *ctx;
        let r = ctx.add_time(Time { event: t.event, offset: off });
        proof {
            lemma_point_extends_all(c1.exprs@, ctx.exprs@);
            lemma_eval_extends_all(c1.exprs@, ctx.exprs@);
        }
        r
    }
}

impl Range {
    /// Substitute the binding into both ends of the interval.
    pub fn fold_with(&self, ctx: &mut Component, bind: &Bind) -> (r: Range)
        requires
            old(ctx).wf(),
            self.start.idx < old(ctx).times@.len(),
            self.end.idx < old(ctx).times@.len(),
            bind.wf_in(old(ctx).exprs@.len() as int),
        ensures
            final(ctx).wf(),
            final(ctx).extends(old(ctx)),
            r.start.idx < final(ctx).times@.len(),
            r.end.idx < final(ctx).times@.len(),
            forall|env: spec_fn(ParamIdx) -> int| #[trigger]
                final(ctx).time_val(r.start, env) == old(ctx).time_val(
                    self.start,
                    subst_env(old(ctx).exprs@, bind.pairs@, env),
                ),
            forall|env: spec_fn(ParamIdx) -> int| #[trigger]
                final(ctx).time_val(r.end, env) == old(ctx).time_val(
                    self.end,
                    subst_env(old(ctx).exprs@, bind.pairs@, env),
                ),
            old(ctx).time_is_point(self.start) && old(ctx).time_is_point(self.end)
                && bind.points_in(old(ctx).exprs@) ==> final(ctx).time_is_point(r.start)
                && final(ctx).time_is_point(r.end),
    {
        let ghost c0 = *ctx;
        let start = self.start.fold_with(ctx, bind);
        let ghost c1 = *ctx;
        let end = self.end.fold_with(ctx, bind);
        proof {
            lemma_point_extends_all(c0.exprs@, c1.exprs@);
            lemma_point_extends_all(c1.exprs@, ctx.exprs@);
            assert(c1.times@[self.end.idx as int] == c0.times@[self.end.idx as int]);
            assert(ctx.times@[start.idx as int] == c1.times@[start.idx as int]);
            if bind.points_in(c0.exprs@) {
                assert(bind.points_in(c1.exprs@));
            }
            lemma_time_val_extends(&c1, ctx, start);
            lemma_eval_extends_all(c0.exprs@, c1.exprs@);
            assert forall|env: spec_fn(ParamIdx) -> int|
                subst_env(c1.exprs@, bind.pairs@, env) =~= subst_env(
                    c0.exprs@,
                    bind.pairs@,
                    env,
                ) by {
                assert forall|q: ParamIdx|
                    #[trigger] subst_env(c1.exprs@, bind.pairs@, env)(q) == subst_env(
                        c0.exprs@,
                        bind.pairs@,
                        env,
                    )(q) by {
                    let k = pos_from(bind_keys(bind.pairs@), q, 0);
                    if 0 <= k < bind.pairs@.len() {
                        assert(bind.pairs@[k].1.idx < c0.exprs@.len());
                    }
                }
            }
            assert(c1.times@[self.end.idx as int] == c0.times@[self.end.idx as int]);
            lemma_eval_extends(
                c0.exprs@,
                c1.exprs@,
                c0.times@[self.end.idx as int].offset.idx as int,
            );
        }
        Range { start, end }
    }
}

} // verus!
