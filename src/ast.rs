//! The program representation that the bundle-elimination pass rewrites:
//! interned names, closed expressions over named parameters, signatures and
//! body commands.
use vstd::prelude::*;

use crate::ir::Op;

verus! {

/// An interned name: a handle into a [`Symbols`] table.
#[derive(Clone, Copy, PartialEq, Eq, Debug, Structural)]
pub struct Id {
    pub sym: usize,
}

/// The table of interned names. Distinct handles name distinct strings.
#[derive(Debug)]
pub struct Symbols {
    pub names: Vec<String>,
}

/// The character of a decimal digit.
pub open spec fn digit_char(d: nat) -> char {
    if d == 0 {
        '0'
    } else if d == 1 {
        '1'
    } else if d == 2 {
        '2'
    } else if d == 3 {
        '3'
    } else if d == 4 {
        '4'
    } else if d == 5 {
        '5'
    } else if d == 6 {
        '6'
    } else if d == 7 {
        '7'
    } else if d == 8 {
        '8'
    } else {
        '9'
    }
}

/// The decimal digits of `n`, without leading zeros.
pub open spec fn decimal(n: nat) -> Seq<char>
    decreases n,
{
    if n < 10 {
        seq![digit_char(n)]
    } else {
        decimal(n / 10).push(digit_char(n % 10))
    }
}

/// The name of the element `i` of a bundle named `base`: `base_i`.
pub open spec fn indexed(base: Seq<char>, i: nat) -> Seq<char> {
    base + seq!['_'] + decimal(i)
}

/// Relies on `format!` and the `Display` impl of `u64`, which writes the
/// decimal digits of the number.
#[verifier::external_body]
pub(crate) fn indexed_name(base: &str, i: u64) -> (r: String)
    ensures
        r@ == indexed(base@, i as nat),
{
    format!("{}_{}", base, i)
}

impl Symbols {
    pub open spec fn wf(&self) -> bool {
        forall|i: int, j: int|
            0 <= i < j < self.names@.len() ==> #[trigger] self.names@[i]@ != #[trigger] self.names@[j]@
    }

    pub open spec fn valid(&self, id: Id) -> bool {
        id.sym < self.names@.len()
    }

    /// The string that `id` stands for.
    pub open spec fn name_of(&self, id: Id) -> Seq<char> {
        self.names@[id.sym as int]@
    }

    /// `self` holds every name of `prev` under the same handle.
    pub open spec fn extends(&self, prev: &Symbols) -> bool {
        &&& prev.names@.len() <= self.names@.len()
        &&& forall|i: int| 0 <= i < prev.names@.len() ==> #[trigger] self.names@[i] == prev.names@[i]
    }

    pub fn new() -> (r: Symbols)
        ensures
            r.wf(),
            r.names@.len() == 0,
    {
        Symbols { names: Vec::new() }
    }

    /// The handle of `s`, added to the table if it is new.
    pub fn intern(&mut self, s: String) -> (r: Id)
        requires
            old(self).wf(),
        ensures
            final(self).wf(),
            final(self).extends(old(self)),
            final(self).valid(r),
            final(self).name_of(r) == s@,
    {
        let mut i: usize = 0;
        while i < self.names.len()
            invariant
                self.wf(),
                i <= self.names@.len(),
                forall|j: int| 0 <= j < i ==> self.names@[j]@ != s@,
            decreases self.names@.len() - i,
        {
            if self.names[i] == s {
                return Id { sym: i };
            }
            i = i + 1;
        }
        self.names.push(s);
        Id { sym: i }
    }

    /// The string that a valid handle stands for.
    pub fn name(&self, id: Id) -> (r: &str)
        requires
            self.valid(id),
        ensures
            r@ == self.name_of(id),
    {
        self.names[id.sym].as_str()
    }
}

/// An expression over named parameters.
#[derive(Debug, PartialEq, Eq)]
pub enum Expr {
    Concrete(u64),
    Abstract(Id),
    Op { op: Op, left: Box<Expr>, right: Box<Expr> },
}

/// The value of `op` on two literals, where it is a literal again.
pub open spec fn op_value(op: Op, a: u64, b: u64) -> Option<u64> {
    match op {
        Op::Add => if a + b <= u64::MAX { Some((a + b) as u64) } else { None },
        Op::Sub => if a >= b { Some((a - b) as u64) } else { None },
        Op::Mul => if a * b <= u64::MAX { Some((a * b) as u64) } else { None },
        Op::Div => if b != 0 { Some((a / b) as u64) } else { None },
        Op::Mod => if b != 0 { Some((a % b) as u64) } else { None },
    }
}

/// `l op r`, computed when both sides are literals and the result is one.
pub open spec fn fold_op(op: Op, l: Expr, r: Expr) -> Expr {
    match (l, r) {
        (Expr::Concrete(a), Expr::Concrete(b)) => match op_value(op, a, b) {
            Some(v) => Expr::Concrete(v),
            None => Expr::Op { op, left: Box::new(l), right: Box::new(r) },
        },
        _ => Expr::Op { op, left: Box::new(l), right: Box::new(r) },
    }
}

/// The first position at or after `k` where `pairs` binds `x`, or -1.
pub open spec fn bound_at(pairs: Seq<(Id, Expr)>, x: Id, k: int) -> int
    decreases pairs.len() - k,
{
    if k < 0 || k >= pairs.len() {
        -1
    } else if pairs[k].0 == x {
        k
    } else {
        bound_at(pairs, x, k + 1)
    }
}

/// `e` with each bound name replaced by its first binding, and every
/// operation on two literals computed.
pub open spec fn resolve_expr(e: Expr, pairs: Seq<(Id, Expr)>) -> Expr
    decreases e,
{
    match e {
        Expr::Concrete(v) => Expr::Concrete(v),
        Expr::Abstract(x) => {
            let k = bound_at(pairs, x, 0);
            if 0 <= k < pairs.len() {
                pairs[k].1
            } else {
                Expr::Abstract(x)
            }
        },
        Expr::Op { op, left, right } => fold_op(
            op,
            resolve_expr(*left, pairs),
            resolve_expr(*right, pairs),
        ),
    }
}

/// An ordered association of names to expressions.
pub struct Binding {
    pub pairs: Vec<(Id, Expr)>,
}

impl Binding {
    pub fn new(pairs: Vec<(Id, Expr)>) -> (r: Binding)
        ensures
            r.pairs@ == pairs@,
    {
        Binding { pairs }
    }
}

impl Expr {
    pub fn concrete(v: u64) -> (r: Expr)
        ensures
            r == Expr::Concrete(v),
    {
        Expr::Concrete(v)
    }

    /// The value of a literal.
    pub fn as_concrete(&self) -> (r: Option<u64>)
        ensures
            match *self {
                Expr::Concrete(v) => r == Some(v),
                _ => r is None,
            },
    {
        match self {
            Expr::Concrete(v) => Some(*v),
            _ => None,
        }
    }

    /// A copy of this expression.
    pub fn copy(&self) -> (r: Expr)
        ensures
            r == *self,
        decreases self,
    {
        match self {
            Expr::Concrete(v) => Expr::Concrete(*v),
            Expr::Abstract(x) => Expr::Abstract(*x),
            Expr::Op { op, left, right } => {
                let l = (**left).copy();
                let r = (**right).copy();
                Expr::Op { op: *op, left: Box::new(l), right: Box::new(r) }
            },
        }
    }

    /// Substitute the binding and compute literal operations.
    pub fn resolve(&self, bind: &Binding) -> (r: Expr)
        ensures
            r == resolve_expr(*self, bind.pairs@),
        decreases self,
    {
        match self {
            Expr::Concrete(v) => Expr::Concrete(*v),
            Expr::Abstract(x) => {
                let mut i: usize = 0;
                while i < bind.pairs.len()
                    invariant
                        *self == Expr::Abstract(*x),
                        i <= bind.pairs@.len(),
                        bound_at(bind.pairs@, *x, 0) == bound_at(bind.pairs@, *x, i as int),
                    decreases bind.pairs@.len() - i,
                {
                    if bind.pairs[i].0 == *x {
                        return bind.pairs[i].1.copy();
                    }
                    i = i + 1;
                }
                Expr::Abstract(*x)
            },
            Expr::Op { op, left, right } => {
                let l = (**left).resolve(bind);
                let r = (**right).resolve(bind);
                if let (Expr::Concrete(a), Expr::Concrete(b)) = (&l, &r) {
                    let (a, b) = (*a, *b);
                    let v = match op {
                        Op::Add => a.checked_add(b),
                        Op::Sub => if a >= b {
                            Some(a - b)
                        } else {
                            None
                        },
                        Op::Mul => a.checked_mul(b),
                        Op::Div => if b != 0 {
                            Some(a / b)
                        } else {
                            None
                        },
                        Op::Mod => if b != 0 {
                            Some(a % b)
                        } else {
                            None
                        },
                    };
                    if let Some(v) = v {
                        return Expr::Concrete(v);
                    }
                }
                Expr::Op { op: *op, left: Box::new(l), right: Box::new(r) }
            },
        }
    }
}

/// A time point: an event shifted by an offset.
#[derive(Debug, PartialEq, Eq)]
pub struct Time {
    pub event: Id,
    pub offset: Expr,
}

/// An interval of time.
#[derive(Debug, PartialEq, Eq)]
pub struct Range {
    pub start: Time,
    pub end: Time,
}

pub open spec fn resolve_time(t: Time, pairs: Seq<(Id, Expr)>) -> Time {
    Time { event: t.event, offset: resolve_expr(t.offset, pairs) }
}

pub open spec fn resolve_range(r: Range, pairs: Seq<(Id, Expr)>) -> Range {
    Range { start: resolve_time(r.start, pairs), end: resolve_time(r.end, pairs) }
}

impl Time {
    pub fn copy(&self) -> (r: Time)
        ensures
            r == *self,
    {
        Time { event: self.event, offset: self.offset.copy() }
    }

    pub fn resolve(&self, bind: &Binding) -> (r: Time)
        ensures
            r == resolve_time(*self, bind.pairs@),
    {
        Time { event: self.event, offset: self.offset.resolve(bind) }
    }
}

impl Range {
    pub fn copy(&self) -> (r: Range)
        ensures
            r == *self,
    {
        Range { start: self.start.copy(), end: self.end.copy() }
    }

    pub fn resolve(&self, bind: &Binding) -> (r: Range)
        ensures
            r == resolve_range(*self, bind.pairs@),
    {
        Range { start: self.start.resolve(bind), end: self.end.resolve(bind) }
    }
}

/// The type of a bundle: `idx` ranges over `[0, len)` and the element at
/// `idx` lives during `liveness`.
#[derive(Debug, PartialEq, Eq)]
pub struct BundleType {
    pub idx: Id,
    pub len: Expr,
    pub liveness: Range,
    pub bitwidth: Expr,
}

/// A named bundle.
#[derive(Debug, PartialEq, Eq)]
pub struct Bundle {
    pub name: Id,
    pub typ: BundleType,
}

impl Bundle {
    pub fn copy(&self) -> (r: Bundle)
        ensures
            r == *self,
    {
        Bundle {
            name: self.name,
            typ: BundleType {
                idx: self.typ.idx,
                len: self.typ.len.copy(),
                liveness: self.typ.liveness.copy(),
                bitwidth: self.typ.bitwidth.copy(),
            },
        }
    }
}

/// A port declared on a signature: a scalar port or a bundle.
#[derive(Debug, PartialEq, Eq)]
pub enum PortDef {
    Port { name: Id, liveness: Range, bitwidth: Expr },
    Bundle(Bundle),
}

/// How a bundle is read: one index, or the indices of `[start, end)`.
#[derive(Debug, PartialEq, Eq)]
pub enum Access {
    Index(Expr),
    Range { start: Expr, end: Expr },
}

/// A reference to a port in a command.
#[derive(Debug, PartialEq, Eq)]
pub enum Port {
    /// A port of this component's signature.
    This(Id),
    /// A port of an invocation.
    InvPort { invoke: Id, name: Id },
    /// A locally visible bundle.
    Bundle { name: Id, access: Access },
    /// A bundle of an invocation.
    InvBundle { invoke: Id, port: Id, access: Access },
    /// A constant value.
    Constant(u64),
}

impl Port {
    /// The element at `access` of the bundle `name`.
    pub fn bundle(name: Id, access: Access) -> (r: Port)
        ensures
            r == (Port::Bundle { name, access }),
    {
        Port::Bundle { name, access }
    }
}

/// `dst = src`.
#[derive(Debug, PartialEq, Eq)]
pub struct Connect {
    pub dst: Port,
    pub src: Port,
}

/// `name := new component`.
#[derive(Debug, PartialEq, Eq)]
pub struct Instance {
    pub name: Id,
    pub component: Id,
}

/// `name := instance<..>(ports)`.
#[derive(Debug, PartialEq, Eq)]
pub struct Invoke {
    pub name: Id,
    pub instance: Id,
    pub ports: Option<Vec<Port>>,
}

/// `for idx in start..end { body }`.
#[derive(Debug, PartialEq, Eq)]
pub struct ForLoop {
    pub idx: Id,
    pub start: Expr,
    pub end: Expr,
    pub body: Vec<Command>,
}

/// `if cond { on_true } else { on_false }`.
#[derive(Debug, PartialEq, Eq)]
pub struct If {
    pub cond: Expr,
    pub on_true: Vec<Command>,
    pub on_false: Vec<Command>,
}

/// A state machine driven by `trigger`.
#[derive(Debug, PartialEq, Eq)]
pub struct Fsm {
    pub name: Id,
    pub states: u64,
    pub trigger: Port,
}

/// A command of a component body.
#[derive(Debug, PartialEq, Eq)]
pub enum Command {
    Instance(Instance),
    Invoke(Invoke),
    Connect(Connect),
    ForLoop(ForLoop),
    If(If),
    Fsm(Fsm),
    Bundle(Bundle),
}

/// The signature of a component.
#[derive(Debug, PartialEq, Eq)]
pub struct Signature {
    pub name: Id,
    pub inputs: Vec<PortDef>,
    pub outputs: Vec<PortDef>,
}

/// A component: its signature and its body.
#[derive(Debug, PartialEq, Eq)]
pub struct Component {
    pub sig: Signature,
    pub body: Vec<Command>,
}

/// A whole program and the table of its names.
#[derive(Debug)]
pub struct Namespace {
    pub components: Vec<Component>,
    pub symbols: Symbols,
}

} // verus!

verus! {

/// The shape of a command with its nested bodies seen as sequences.
pub enum CmdView {
    Instance(Instance),
    Invoke { name: Id, instance: Id, ports: Option<Seq<Port>> },
    Connect(Connect),
    ForLoop { idx: Id, start: Expr, end: Expr, body: Seq<CmdView> },
    If { cond: Expr, on_true: Seq<CmdView>, on_false: Seq<CmdView> },
    Fsm(Fsm),
    Bundle(Bundle),
}

pub open spec fn cmd_view(c: Command) -> CmdView
    decreases c,
{
    match c {
        Command::Instance(i) => CmdView::Instance(i),
        Command::Invoke(inv) => CmdView::Invoke {
            name: inv.name,
            instance: inv.instance,
            ports: match inv.ports {
                Some(ps) => Some(ps@),
                None => None,
            },
        },
        Command::Connect(con) => CmdView::Connect(con),
        Command::ForLoop(f) => CmdView::ForLoop {
            idx: f.idx,
            start: f.start,
            end: f.end,
            body: cmds_view(f.body@),
        },
        Command::If(i) => CmdView::If {
            cond: i.cond,
            on_true: cmds_view(i.on_true@),
            on_false: cmds_view(i.on_false@),
        },
        Command::Fsm(f) => CmdView::Fsm(f),
        Command::Bundle(b) => CmdView::Bundle(b),
    }
}

pub open spec fn cmds_view(s: Seq<Command>) -> Seq<CmdView>
    decreases s,
{
    if s.len() == 0 {
        Seq::empty()
    } else {
        seq![cmd_view(s[0])] + cmds_view(s.subrange(1, s.len() as int))
    }
}

/// The view of a sequence with one more command at its end.
pub proof fn lemma_cmds_view_push(s: Seq<Command>, c: Command)
    ensures
        cmds_view(s.push(c)) == cmds_view(s).push(cmd_view(c)),
    decreases s.len(),
{
    if s.len() == 0 {
        assert(s.push(c).subrange(1, 1) =~= Seq::<Command>::empty());
        assert(cmds_view(s.push(c).subrange(1, 1)) =~= Seq::<CmdView>::empty());
        assert(s.push(c)[0] == c);
        assert(cmds_view(s.push(c)) =~= seq![cmd_view(c)]);
    } else {
        assert(s.push(c).subrange(1, s.len() as int + 1) =~= s.subrange(1, s.len() as int).push(c));
        lemma_cmds_view_push(s.subrange(1, s.len() as int), c);
        assert(cmds_view(s.push(c)) =~= cmds_view(s).push(cmd_view(c)));
    }
}

} // verus!
