//! Bundle elimination: every bundle on a component's signature becomes one
//! scalar port per index, wired to a body-local copy of the bundle, and every
//! ranged access to such a bundle becomes the list of its scalar ports.
use vstd::prelude::*;

use crate::ir::prefix_of;
use crate::ast::{
    cmd_view, cmds_view, indexed, indexed_name, lemma_cmds_view_push, resolve_range,
    Access, Binding, Bundle, CmdView, Command, Component, Connect, Expr, ForLoop, Id, If,
    Invoke, Namespace, Port, PortDef, Signature, Symbols,
};

verus! {

/// Why the pass gave up. Each one is a broken invariant of an earlier phase.
#[derive(Clone, Copy, PartialEq, Eq, Debug, Structural)]
pub enum ElimError {
    /// A signature bundle whose length is not a literal.
    NonConstantLength { bundle: Id },
    /// No scalar ports were recorded for this bundle of this component.
    MissingBundle { comp: Id, bundle: Id },
    /// An invocation that no `Invoke` command introduced.
    MissingInstance { invoke: Id },
    /// An instance that no `Instance` command introduced.
    MissingComponent { instance: Id },
    /// A ranged access whose bounds are not literals.
    NonConstantRange { bundle: Id },
    /// A ranged access that reaches past the recorded ports.
    RangeOutOfBounds { bundle: Id, end: u64 },
    /// A ranged access to an invocation's bundle written to by a connection.
    SplatInConnect { invoke: Id, port: Id },
}

/// The scalar ports generated for one signature bundle of one component.
#[derive(Debug)]
pub struct SigBundle {
    pub comp: Id,
    pub bundle: Id,
    pub ports: Vec<Id>,
}

/// The tables of the pass, as sequences of associations (a later entry
/// shadows an earlier one).
pub struct ElimMaps {
    pub splices: Seq<(Id, Id, Seq<Id>)>,
    pub insts: Seq<(Id, Id)>,
    pub invs: Seq<(Id, Id)>,
}

/// The value associated with `k`: the last entry that names it.
pub open spec fn assoc(s: Seq<(Id, Id)>, k: Id) -> Option<Id>
    decreases s.len(),
{
    if s.len() == 0 {
        None
    } else if s.last().0 == k {
        Some(s.last().1)
    } else {
        assoc(s.drop_last(), k)
    }
}

/// The scalar ports recorded for `bundle` of `comp`.
pub open spec fn splice_of(s: Seq<(Id, Id, Seq<Id>)>, comp: Id, bundle: Id) -> Option<Seq<Id>>
    decreases s.len(),
{
    if s.len() == 0 {
        None
    } else if s.last().0 == comp && s.last().1 == bundle {
        Some(s.last().2)
    } else {
        splice_of(s.drop_last(), comp, bundle)
    }
}

/// The component whose signature an invocation refers to.
pub open spec fn invoke_comp(m: ElimMaps, invoke: Id) -> Result<Id, ElimError> {
    match assoc(m.invs, invoke) {
        None => Err(ElimError::MissingInstance { invoke }),
        Some(inst) => match assoc(m.insts, inst) {
            None => Err(ElimError::MissingComponent { instance: inst }),
            Some(c) => Ok(c),
        },
    }
}

/// The scalar ports that `[start, end)` of a signature bundle stands for.
pub open spec fn splat(m: ElimMaps, comp: Id, bundle: Id, start: Expr, end: Expr) -> Result<
    Seq<Id>,
    ElimError,
> {
    match splice_of(m.splices, comp, bundle) {
        None => Err(ElimError::MissingBundle { comp, bundle }),
        Some(ports) => match (start, end) {
            (Expr::Concrete(s), Expr::Concrete(e)) => if s >= e {
                Ok(Seq::empty())
            } else if e <= ports.len() {
                Ok(ports.subrange(s as int, e as int))
            } else {
                Err(ElimError::RangeOutOfBounds { bundle, end: e })
            },
            _ => Err(ElimError::NonConstantRange { bundle }),
        },
    }
}

/// The element `i` of the bundle `name`.
pub open spec fn bundle_elem(name: Id, i: int) -> Port {
    Port::Bundle { name, access: Access::Index(Expr::Concrete(i as u64)) }
}

/// What a port reference becomes in the body of `cur`.
pub open spec fn port_spec(m: ElimMaps, cur: Id, p: Port) -> Result<Seq<Port>, ElimError> {
    match p {
        Port::Bundle { name, access } => match access {
            Access::Index(_) => Ok(seq![p]),
            Access::Range { start, end } => if splice_of(m.splices, cur, name) is Some {
                match splat(m, cur, name, start, end) {
                    Ok(ids) => Ok(ids.map_values(|n: Id| Port::This(n))),
                    Err(e) => Err(e),
                }
            } else {
                match (start, end) {
                    (Expr::Concrete(s), Expr::Concrete(e)) => Ok(
                        Seq::new(
                            if s < e {
                                (e - s) as nat
                            } else {
                                0
                            },
                            |k: int| bundle_elem(name, s + k),
                        ),
                    ),
                    _ => Err(ElimError::NonConstantRange { bundle: name }),
                }
            },
        },
        Port::InvBundle { invoke, port, access } => match access {
            Access::Index(_) => Ok(seq![p]),
            Access::Range { start, end } => match invoke_comp(m, invoke) {
                Err(e) => Err(e),
                Ok(comp) => match splat(m, comp, port, start, end) {
                    Ok(ids) => Ok(ids.map_values(|n: Id| Port::InvPort { invoke, name: n })),
                    Err(e) => Err(e),
                },
            },
        },
        _ => Ok(seq![p]),
    }
}

/// The concatenation of what each port of `ps` becomes, or the first error.
pub open spec fn ports_spec(m: ElimMaps, cur: Id, ps: Seq<Port>) -> Result<Seq<Port>, ElimError>
    decreases ps.len(),
{
    if ps.len() == 0 {
        Ok(Seq::empty())
    } else {
        match port_spec(m, cur, ps[0]) {
            Err(e) => Err(e),
            Ok(v) => match ports_spec(m, cur, ps.subrange(1, ps.len() as int)) {
                Err(e) => Err(e),
                Ok(w) => Ok(v + w),
            },
        }
    }
}

/// The tables after an `Instance` command.
pub open spec fn with_inst(m: ElimMaps, name: Id, comp: Id) -> ElimMaps {
    ElimMaps { splices: m.splices, insts: m.insts.push((name, comp)), invs: m.invs }
}

/// The tables after an `Invoke` command.
pub open spec fn with_inv(m: ElimMaps, name: Id, inst: Id) -> ElimMaps {
    ElimMaps { splices: m.splices, insts: m.insts, invs: m.invs.push((name, inst)) }
}

/// What a command of the body of `cur` becomes, and the tables after it.
pub open spec fn cmd_spec(m: ElimMaps, cur: Id, c: CmdView) -> (ElimMaps, Result<
    CmdView,
    ElimError,
>)
    decreases c,
{
    match c {
        CmdView::Instance(i) => (with_inst(m, i.name, i.component), Ok(c)),
        CmdView::Invoke { name, instance, ports } => {
            let m1 = with_inv(m, name, instance);
            match ports {
                None => (m1, Ok(c)),
                Some(ps) => match ports_spec(m1, cur, ps) {
                    Ok(v) => (m1, Ok(CmdView::Invoke { name, instance, ports: Some(v) })),
                    Err(e) => (m1, Err(e)),
                },
            }
        },
        CmdView::Connect(con) => match con.dst {
            Port::InvBundle { invoke, port, access: Access::Range { .. } } => (
                m,
                Err(ElimError::SplatInConnect { invoke, port }),
            ),
            _ => (m, Ok(c)),
        },
        CmdView::ForLoop { idx, start, end, body } => {
            let (m1, r) = cmds_spec(m, cur, body);
            match r {
                Ok(b) => (m1, Ok(CmdView::ForLoop { idx, start, end, body: b })),
                Err(e) => (m1, Err(e)),
            }
        },
        CmdView::If { cond, on_true, on_false } => {
            let (m1, r1) = cmds_spec(m, cur, on_true);
            match r1 {
                Err(e) => (m1, Err(e)),
                Ok(t) => {
                    let (m2, r2) = cmds_spec(m1, cur, on_false);
                    match r2 {
                        Err(e) => (m2, Err(e)),
                        Ok(f) => (m2, Ok(CmdView::If { cond, on_true: t, on_false: f })),
                    }
                },
            }
        },
        CmdView::Fsm(_) => (m, Ok(c)),
        CmdView::Bundle(_) => (m, Ok(c)),
    }
}

/// What a sequence of commands becomes, and the tables after it; it stops
/// at the first error.
pub open spec fn cmds_spec(m: ElimMaps, cur: Id, cs: Seq<CmdView>) -> (ElimMaps, Result<
    Seq<CmdView>,
    ElimError,
>)
    decreases cs,
{
    if cs.len() == 0 {
        (m, Ok(Seq::empty()))
    } else {
        let (m1, r1) = cmd_spec(m, cur, cs[0]);
        match r1 {
            Err(e) => (m1, Err(e)),
            Ok(c) => {
                let (m2, r2) = cmds_spec(m1, cur, cs.subrange(1, cs.len() as int));
                match r2 {
                    Err(e) => (m2, Err(e)),
                    Ok(rest) => (m2, Ok(seq![c] + rest)),
                }
            },
        }
    }
}

/// `d` is the scalar port generated for index `i` of the bundle `b` whose
/// name reads `base`.
pub open spec fn is_elem_port(syms: &Symbols, base: Seq<char>, b: Bundle, i: int, d: PortDef) -> bool {
    match d {
        PortDef::Port { name, liveness, bitwidth } => {
            &&& syms.valid(name)
            &&& syms.name_of(name) == indexed(base, i as nat)
            &&& liveness == resolve_range(
                b.typ.liveness,
                seq![(b.typ.idx, Expr::Concrete(i as u64))],
            )
            &&& bitwidth == b.typ.bitwidth
        },
        PortDef::Bundle(_) => false,
    }
}

/// The name of a port definition.
pub open spec fn def_name(d: PortDef) -> Id {
    match d {
        PortDef::Port { name, .. } => name,
        PortDef::Bundle(b) => b.name,
    }
}

/// The connection that fills element `i` of an input bundle from its port.
pub open spec fn input_wire(b: Id, i: int, port: Id) -> Command {
    Command::Connect(Connect { dst: bundle_elem(b, i), src: Port::This(port) })
}

/// The connection that drives an output port from element `i` of its bundle.
pub open spec fn output_wire(b: Id, i: int, port: Id) -> Command {
    Command::Connect(Connect { dst: Port::This(port), src: bundle_elem(b, i) })
}

/// A port definition that a bundle of constant length lowers to `out`.
pub open spec fn def_lowered(d: PortDef, out: Seq<PortDef>) -> bool {
    match d {
        PortDef::Port { .. } => out == seq![d],
        PortDef::Bundle(b) => match b.typ.len {
            Expr::Concrete(n) => out.len() == n && forall|i: int|
                0 <= i < n ==> match #[trigger] out[i] {
                    PortDef::Port { liveness, bitwidth, .. } => liveness == resolve_range(
                        b.typ.liveness,
                        seq![(b.typ.idx, Expr::Concrete(i as u64))],
                    ) && bitwidth == b.typ.bitwidth,
                    PortDef::Bundle(_) => false,
                },
            _ => false,
        },
    }
}

/// How many scalar ports a definition lowers to.
pub open spec fn def_width(d: PortDef) -> int {
    match d {
        PortDef::Port { .. } => 1,
        PortDef::Bundle(b) => match b.typ.len {
            Expr::Concrete(n) => n as int,
            _ => 0,
        },
    }
}

/// `out` is `defs` with each definition replaced by what it lowers to.
pub open spec fn defs_lowered(defs: Seq<PortDef>, out: Seq<PortDef>) -> bool
    decreases defs.len(),
{
    if defs.len() == 0 {
        out.len() == 0
    } else {
        let n = def_width(defs.last());
        &&& n <= out.len()
        &&& def_lowered(defs.last(), out.subrange(out.len() - n, out.len() as int))
        &&& defs_lowered(defs.drop_last(), out.subrange(0, out.len() - n))
    }
}

/// Every bundle among `defs` has a literal length.
pub open spec fn lens_constant(defs: Seq<PortDef>) -> bool {
    forall|j: int|
        0 <= j < defs.len() ==> match #[trigger] defs[j] {
            PortDef::Bundle(b) => b.typ.len is Concrete,
            _ => true,
        }
}

/// No definition among `defs` is a bundle.
pub open spec fn all_scalar(defs: Seq<PortDef>) -> bool {
    forall|j: int| 0 <= j < defs.len() ==> (#[trigger] defs[j]) is Port
}

/// The name of every bundle among `defs` is interned in `syms`.
pub open spec fn bundles_named_in(defs: Seq<PortDef>, syms: &Symbols) -> bool {
    forall|j: int|
        0 <= j < defs.len() ==> match #[trigger] defs[j] {
            PortDef::Bundle(b) => syms.valid(b.name),
            _ => true,
        }
}

/// Eliminates bundles from component signatures and splats ranged accesses
/// to them.
#[derive(Debug)]
pub struct BundleElim {
    /// The scalar ports generated for each (component, bundle).
    pub sig_bundle_map: Vec<SigBundle>,
    /// Instance name to component name.
    pub inst_map: Vec<(Id, Id)>,
    /// Invocation name to instance name.
    pub inv_map: Vec<(Id, Id)>,
}

impl View for BundleElim {
    type V = ElimMaps;

    open spec fn view(&self) -> ElimMaps {
        ElimMaps {
            splices: self.sig_bundle_map@.map_values(|e: SigBundle| (e.comp, e.bundle, e.ports@)),
            insts: self.inst_map@,
            invs: self.inv_map@,
        }
    }
}

/// The entry of `k` in an association list, searched from the end.
fn find_assoc(s: &Vec<(Id, Id)>, k: Id) -> (r: Option<Id>)
    ensures
        r == assoc(s@, k),
{
    let mut i: usize = s.len();
    assert(s@.subrange(0, i as int) =~= s@);
    while i > 0
        invariant
            i <= s@.len(),
            assoc(s@, k) == assoc(s@.subrange(0, i as int), k),
        decreases i,
    {
        let ghost pre = s@.subrange(0, i as int);
        assert(pre.drop_last() =~= s@.subrange(0, i - 1));
        if s[i - 1].0 == k {
            return Some(s[i - 1].1);
        }
        i = i - 1;
    }
    proof {
        assert(s@.subrange(0, 0) =~= Seq::<(Id, Id)>::empty());
    }
    None
}

/// `ids` as references to ports of this component.
fn this_ports(ids: Vec<Id>) -> (r: Vec<Port>)
    ensures
        r@ == ids@.map_values(|n: Id| Port::This(n)),
{
    let mut r: Vec<Port> = Vec::new();
    let mut i: usize = 0;
    while i < ids.len()
        invariant
            i <= ids@.len(),
            r@ == ids@.subrange(0, i as int).map_values(|n: Id| Port::This(n)),
        decreases ids@.len() - i,
    {
        r.push(Port::This(ids[i]));
        i = i + 1;
        assert(r@ =~= ids@.subrange(0, i as int).map_values(|n: Id| Port::This(n)));
    }
    assert(ids@.subrange(0, i as int) =~= ids@);
    r
}

/// `ids` as references to ports of the invocation `invoke`.
fn inv_ports(invoke: Id, ids: Vec<Id>) -> (r: Vec<Port>)
    ensures
        r@ == ids@.map_values(|n: Id| Port::InvPort { invoke, name: n }),
{
    let mut r: Vec<Port> = Vec::new();
    let mut i: usize = 0;
    while i < ids.len()
        invariant
            i <= ids@.len(),
            r@ == ids@.subrange(0, i as int).map_values(|n: Id| Port::InvPort { invoke, name: n }),
        decreases ids@.len() - i,
    {
        r.push(Port::InvPort { invoke, name: ids[i] });
        i = i + 1;
        assert(r@ =~= ids@.subrange(0, i as int).map_values(
            |n: Id| Port::InvPort { invoke, name: n },
        ));
    }
    assert(ids@.subrange(0, i as int) =~= ids@);
    r
}

/// A result whose success value is seen as a sequence.
pub open spec fn res_seq<T>(r: Result<Vec<T>, ElimError>, s: Result<Seq<T>, ElimError>) -> bool {
    match r {
        Ok(v) => s == Ok::<Seq<T>, ElimError>(v@),
        Err(e) => s == Err::<Seq<T>, ElimError>(e),
    }
}

impl BundleElim {
    pub fn new() -> (r: BundleElim)
        ensures
            r.sig_bundle_map@.len() == 0,
            r.inst_map@.len() == 0,
            r.inv_map@.len() == 0,
    {
        BundleElim { sig_bundle_map: Vec::new(), inst_map: Vec::new(), inv_map: Vec::new() }
    }

    /// The position of the last entry for (`comp`, `bundle`).
    fn find_splice(&self, comp: Id, bundle: Id) -> (r: Option<usize>)
        ensures
            match r {
                Some(i) => i < self.sig_bundle_map@.len() && splice_of(self@.splices, comp, bundle)
                    == Some(self.sig_bundle_map@[i as int].ports@),
                None => splice_of(self@.splices, comp, bundle) is None,
            },
    {
        let ghost s = self@.splices;
        let mut i: usize = self.sig_bundle_map.len();
        assert(s.subrange(0, i as int) =~= s);
        while i > 0
            invariant
                i <= self.sig_bundle_map@.len(),
                s == self@.splices,
                splice_of(s, comp, bundle) == splice_of(s.subrange(0, i as int), comp, bundle),
            decreases i,
        {
            let ghost pre = s.subrange(0, i as int);
            assert(pre.drop_last() =~= s.subrange(0, i - 1));
            let e = &self.sig_bundle_map[i - 1];
            if e.comp == comp && e.bundle == bundle {
                return Some(i - 1);
            }
            i = i - 1;
        }
        proof {
            assert(s.subrange(0, 0) =~= Seq::<(Id, Id, Seq<Id>)>::empty());
        }
        None
    }

    /// The component that the instance of `invoke` was made from.
    pub fn sig_from_invoke(&self, invoke: Id) -> (r: Result<Id, ElimError>)
        ensures
            r == invoke_comp(self@, invoke),
    {
        match find_assoc(&self.inv_map, invoke) {
            None => Err(ElimError::MissingInstance { invoke }),
            Some(inst) => match find_assoc(&self.inst_map, inst) {
                None => Err(ElimError::MissingComponent { instance: inst }),
                Some(c) => Ok(c),
            },
        }
    }

    /// The scalar ports recorded for `[start, end)` of a signature bundle.
    pub fn bundle_splat_ports(&self, comp: Id, bundle: Id, start: &Expr, end: &Expr) -> (r: Result<
        Vec<Id>,
        ElimError,
    >)
        ensures
            res_seq(r, splat(self@, comp, bundle, *start, *end)),
    {
        let k = match self.find_splice(comp, bundle) {
            None => {
                return Err(ElimError::MissingBundle { comp, bundle });
            },
            Some(k) => k,
        };
        let renamed = &self.sig_bundle_map[k].ports;
        let (s, e) = match (start.as_concrete(), end.as_concrete()) {
            (Some(s), Some(e)) => (s, e),
            _ => {
                return Err(ElimError::NonConstantRange { bundle });
            },
        };
        let mut out: Vec<Id> = Vec::new();
        if s >= e {
            return Ok(out);
        }
        if e > renamed.len() as u64 {
            return Err(ElimError::RangeOutOfBounds { bundle, end: e });
        }
        let end_u: usize = e as usize;
        let mut i: usize = s as usize;
        while i < end_u
            invariant
                s <= i <= end_u,
                end_u == e,
                end_u <= renamed@.len(),
                out@ == renamed@.subrange(s as int, i as int),
            decreases end_u - i,
        {
            out.push(renamed[i]);
            i = i + 1;
            assert(out@ =~= renamed@.subrange(s as int, i as int));
        }
        Ok(out)
    }

    /// Rewrite one port reference of the body of `cur`.
    pub fn port(&self, cur: Id, p: Port) -> (r: Result<Vec<Port>, ElimError>)
        ensures
            res_seq(r, port_spec(self@, cur, p)),
    {
        let ghost gp = p;
        match p {
            Port::Bundle { name, access } => match access {
                Access::Index(i) => {
                    let r = vec![Port::Bundle { name, access: Access::Index(i) }];
                    assert(r@ =~= seq![gp]);
                    Ok(r)
                },
                Access::Range { start, end } => {
                    if self.find_splice(cur, name).is_some() {
                        match self.bundle_splat_ports(cur, name, &start, &end) {
                            Ok(ids) => {
                                let ghost g = ids@;
                                let r = this_ports(ids);
                                assert(r@ =~= g.map_values(|n: Id| Port::This(n)));
                                Ok(r)
                            },
                            Err(e) => Err(e),
                        }
                    } else {
                        match (start.as_concrete(), end.as_concrete()) {
                            (Some(s), Some(e)) => {
                                let mut out: Vec<Port> = Vec::new();
                                let mut i: u64 = s;
                                while i < e
                                    invariant
                                        s <= i,
                                        s < e ==> i <= e,
                                        s >= e ==> i == s,
                                        out@ == Seq::new(
                                            (i - s) as nat,
                                            |k: int| bundle_elem(name, s + k),
                                        ),
                                    decreases e - i,
                                {
                                    out.push(
                                        Port::Bundle {
                                            name,
                                            access: Access::Index(Expr::Concrete(i)),
                                        },
                                    );
                                    i = i + 1;
                                    assert(out@ =~= Seq::new(
                                        (i - s) as nat,
                                        |k: int| bundle_elem(name, s + k),
                                    ));
                                }
                                proof {
                                    let n: nat = if s < e {
                                        (e - s) as nat
                                    } else {
                                        0
                                    };
                                    assert(s < e ==> i == e);
                                    assert((i - s) as nat == n);
                                    assert(out@ =~= Seq::new(n, |k: int| bundle_elem(name, s + k)));
                                }
                                Ok(out)
                            },
                            _ => Err(ElimError::NonConstantRange { bundle: name }),
                        }
                    }
                },
            },
            Port::InvBundle { invoke, port, access } => match access {
                Access::Index(i) => {
                    let r = vec![Port::InvBundle { invoke, port, access: Access::Index(i) }];
                    assert(r@ =~= seq![gp]);
                    Ok(r)
                },
                Access::Range { start, end } => match self.sig_from_invoke(invoke) {
                    Err(e) => Err(e),
                    Ok(comp) => match self.bundle_splat_ports(comp, port, &start, &end) {
                        Ok(ids) => {
                            let ghost g = ids@;
                            let r = inv_ports(invoke, ids);
                            assert(r@ =~= g.map_values(|n: Id| Port::InvPort { invoke, name: n }));
                            Ok(r)
                        },
                        Err(e) => Err(e),
                    },
                },
            },
            other => {
                let r = vec![other];
                assert(r@ =~= seq![gp]);
                Ok(r)
            },
        }
    }
}


/// `out` followed by what a rewrite produced, if it succeeded.
pub open spec fn prepend_ports(out: Seq<Port>, r: Result<Seq<Port>, ElimError>) -> Result<
    Seq<Port>,
    ElimError,
> {
    match r {
        Ok(w) => Ok(out + w),
        Err(e) => Err(e),
    }
}

/// `out` followed by what a rewrite of commands produced, with its tables.
pub open spec fn prepend_cmds(out: Seq<CmdView>, r: (ElimMaps, Result<Seq<CmdView>, ElimError>)) -> (
    ElimMaps,
    Result<Seq<CmdView>, ElimError>,
) {
    (
        r.0,
        match r.1 {
            Ok(w) => Ok(out + w),
            Err(e) => Err(e),
        },
    )
}

/// The names of a list of port definitions.
fn def_names(defs: &Vec<PortDef>) -> (r: Vec<Id>)
    ensures
        r@ == defs@.map_values(|d: PortDef| def_name(d)),
{
    let mut r: Vec<Id> = Vec::new();
    let mut i: usize = 0;
    while i < defs.len()
        invariant
            i <= defs@.len(),
            r@ == defs@.subrange(0, i as int).map_values(|d: PortDef| def_name(d)),
        decreases defs@.len() - i,
    {
        let n = match &defs[i] {
            PortDef::Port { name, .. } => *name,
            PortDef::Bundle(b) => b.name,
        };
        r.push(n);
        i = i + 1;
        assert(r@ =~= defs@.subrange(0, i as int).map_values(|d: PortDef| def_name(d)));
    }
    assert(defs@.subrange(0, i as int) =~= defs@);
    r
}

impl BundleElim {
    /// Rewrite the ports of an invocation, in order.
    #[verifier::loop_isolation(false)]
    fn ports(&self, cur: Id, ps: Vec<Port>) -> (r: Result<Vec<Port>, ElimError>)
        ensures
            res_seq(r, ports_spec(self@, cur, ps@)),
    {
        let ghost orig = ps@;
        let mut rest = ps;
        let mut out: Vec<Port> = Vec::new();
        assert(prepend_ports(out@, ports_spec(self@, cur, rest@)) == ports_spec(self@, cur, orig))
            by {
            match ports_spec(self@, cur, orig) {
                Ok(w) => assert(Seq::<Port>::empty() + w =~= w),
                Err(_) => {},
            }
        }
        while rest.len() > 0
            invariant
                ports_spec(self@, cur, orig) == prepend_ports(out@, ports_spec(self@, cur, rest@)),
            decreases rest@.len(),
        {
            let ghost before = rest@;
            let ghost out0 = out@;
            let p = rest.remove(0);
            assert(rest@ =~= before.subrange(1, before.len() as int));
            assert(p == before[0]);
            match self.port(cur, p) {
                Err(e) => {
                    assert(ports_spec(self@, cur, before) == Err::<Seq<Port>, ElimError>(e));
                    return Err(e);
                },
                Ok(v) => {
                    let ghost gv = v@;
                    let mut v = v;
                    out.append(&mut v);
                    proof {
                        match ports_spec(self@, cur, rest@) {
                            Ok(w) => assert(out0 + (gv + w) =~= (out0 + gv) + w),
                            Err(_) => {},
                        }
                    }
                },
            }
        }
        proof {
            assert(out@ + Seq::<Port>::empty() =~= out@);
        }
        Ok(out)
    }

    /// Rewrite one command of the body of `cur`, recording the instances and
    /// invocations it introduces.
    pub fn command(&mut self, cur: Id, c: Command) -> (r: Result<Command, ElimError>)
        ensures
            final(self).sig_bundle_map@ == old(self).sig_bundle_map@,
            ({
                let (m, res) = cmd_spec(old(self)@, cur, cmd_view(c));
                match r {
                    Ok(c2) => res == Ok::<CmdView, ElimError>(cmd_view(c2)) && final(self)@ == m,
                    Err(e) => res == Err::<CmdView, ElimError>(e),
                }
            }),
        decreases c,
    {
        let ghost m0 = self@;
        let ghost gc = c;
        match c {
            Command::Instance(inst) => {
                self.inst_map.push((inst.name, inst.component));
                proof {
                    assert(self@ == with_inst(m0, inst.name, inst.component));
                }
                Ok(Command::Instance(inst))
            },
            Command::Invoke(inv) => {
                let Invoke { name, instance, ports } = inv;
                self.inv_map.push((name, instance));
                proof {
                    assert(self@ == with_inv(m0, name, instance));
                }
                match ports {
                    None => Ok(Command::Invoke(Invoke { name, instance, ports: None })),
                    Some(ps) => match self.ports(cur, ps) {
                        Ok(v) => Ok(Command::Invoke(Invoke { name, instance, ports: Some(v) })),
                        Err(e) => Err(e),
                    },
                }
            },
            Command::Connect(con) => {
                match &con.dst {
                    Port::InvBundle { invoke, port, access: Access::Range { .. } } => {
                        return Err(ElimError::SplatInConnect { invoke: *invoke, port: *port });
                    },
                    _ => {},
                }
                Ok(Command::Connect(con))
            },
            Command::ForLoop(f) => {
                let ForLoop { idx, start, end, body } = f;
                match self.commands(cur, body) {
                    Ok(b) => Ok(Command::ForLoop(ForLoop { idx, start, end, body: b })),
                    Err(e) => Err(e),
                }
            },
            Command::If(i) => {
                let If { cond, on_true, on_false } = i;
                let t = match self.commands(cur, on_true) {
                    Ok(t) => t,
                    Err(e) => {
                        return Err(e);
                    },
                };
                match self.commands(cur, on_false) {
                    Ok(f) => Ok(Command::If(If { cond, on_true: t, on_false: f })),
                    Err(e) => Err(e),
                }
            },
            other => Ok(other),
        }
    }

    /// Rewrite a sequence of commands of the body of `cur`, in order.
    #[verifier::loop_isolation(false)]
    pub fn commands(&mut self, cur: Id, cmds: Vec<Command>) -> (r: Result<Vec<Command>, ElimError>)
        ensures
            final(self).sig_bundle_map@ == old(self).sig_bundle_map@,
            ({
                let (m, res) = cmds_spec(old(self)@, cur, cmds_view(cmds@));
                match r {
                    Ok(v) => res == Ok::<Seq<CmdView>, ElimError>(cmds_view(v@)) && final(self)@
                        == m,
                    Err(e) => res == Err::<Seq<CmdView>, ElimError>(e),
                }
            }),
        decreases cmds,
    {
        let ghost g = cmds;
        let ghost m0 = self@;
        let ghost sbm = self.sig_bundle_map@;
        let mut rest = cmds;
        let mut out: Vec<Command> = Vec::new();
        let ghost mut i: int = 0;
        proof {
            let t = cmds_spec(m0, cur, cmds_view(g@));
            match t.1 {
                Ok(w) => assert(Seq::<CmdView>::empty() + w =~= w),
                Err(_) => {},
            }
            assert(cmds_view(out@) =~= Seq::<CmdView>::empty());
            assert(rest@ =~= g@.subrange(0, g@.len() as int));
        }
        while rest.len() > 0
            invariant
                0 <= i <= g@.len(),
                rest@ == g@.subrange(i, g@.len() as int),
                self.sig_bundle_map@ == sbm,
                cmds_spec(m0, cur, cmds_view(g@)) == prepend_cmds(
                    cmds_view(out@),
                    cmds_spec(self@, cur, cmds_view(rest@)),
                ),
            decreases rest@.len(),
        {
            let ghost before = rest@;
            let ghost out0 = out@;
            let ghost mb = self@;
            let c = rest.remove(0);
            proof {
                assert(rest@ =~= before.subrange(1, before.len() as int));
                assert(c == g@[i]);
                vstd::std_specs::vec::axiom_vec_index_decreases(g, i);
                assert(cmds_view(before) == seq![cmd_view(c)] + cmds_view(rest@));
                assert((seq![cmd_view(c)] + cmds_view(rest@))[0] == cmd_view(c));
                assert((seq![cmd_view(c)] + cmds_view(rest@)).subrange(
                    1,
                    cmds_view(before).len() as int,
                ) =~= cmds_view(rest@));
            }
            proof {
                assert(decreases_to!(g => c));
            }
            match self.command(cur, c) {
                Err(e) => {
                    assert(cmds_spec(mb, cur, cmds_view(before)).1 == Err::<Seq<CmdView>, ElimError>(e));
                    assert(self.sig_bundle_map@ == sbm);
                    return Err(e);
                },
                Ok(c2) => {
                    out.push(c2);
                    proof {
                        lemma_cmds_view_push(out0, c2);
                        let t = cmds_spec(self@, cur, cmds_view(rest@));
                        match t.1 {
                            Ok(w) => assert(cmds_view(out0) + (seq![cmd_view(c2)] + w)
                                =~= cmds_view(out0).push(cmd_view(c2)) + w),
                            Err(_) => {},
                        }
                    }
                },
            }
            proof {
                i = i + 1;
            }
        }
        proof {
            assert(rest@ =~= Seq::<Command>::empty());
            assert(cmds_view(rest@) =~= Seq::<CmdView>::empty());
            assert(cmds_view(out@) + Seq::<CmdView>::empty() =~= cmds_view(out@));
        }
        Ok(out)
    }
}

impl BundleElim {
    /// Lower one signature bundle of constant length `n` into the ports
    /// `name_0 .. name_{n-1}`. The bundle itself moves to the start of the
    /// body; an input bundle is filled from its ports before the body, an
    /// output bundle drives its ports after it.
    pub fn compile_sig_port(
        p: Bundle,
        is_input: bool,
        pre_cmds: &mut Vec<Command>,
        post_cmds: &mut Vec<Command>,
        syms: &mut Symbols,
    ) -> (r: Result<(Vec<PortDef>, bool), ElimError>)
        requires
            old(syms).wf(),
            old(syms).valid(p.name),
        ensures
            final(syms).wf(),
            final(syms).extends(old(syms)),
            match r {
                Err(e) => !(p.typ.len is Concrete) && e == (ElimError::NonConstantLength {
                    bundle: p.name,
                }) && final(pre_cmds)@ == old(pre_cmds)@ && final(post_cmds)@ == old(post_cmds)@,
                Ok((ports, dir)) => match p.typ.len {
                    Expr::Concrete(n) => {
                        &&& dir == is_input
                        &&& ports@.len() == n
                        &&& forall|i: int|
                            0 <= i < n ==> is_elem_port(
                                final(syms),
                                old(syms).name_of(p.name),
                                p,
                                i,
                                #[trigger] ports@[i],
                            )
                        &&& final(pre_cmds)@ == old(pre_cmds)@ + seq![Command::Bundle(p)] + if is_input {
                            Seq::new(n as nat, |i: int| input_wire(p.name, i, def_name(ports@[i])))
                        } else {
                            Seq::empty()
                        }
                        &&& final(post_cmds)@ == old(post_cmds)@ + if is_input {
                            Seq::empty()
                        } else {
                            Seq::new(n as nat, |i: int| output_wire(p.name, i, def_name(ports@[i])))
                        }
                    },
                    _ => false,
                },
            },
    {
        let n = match p.typ.len.as_concrete() {
            Some(n) => n,
            None => {
                return Err(ElimError::NonConstantLength { bundle: p.name });
            },
        };
        let ghost syms0 = *syms;
        let ghost pre0 = pre_cmds@;
        let ghost post0 = post_cmds@;
        pre_cmds.push(Command::Bundle(p.copy()));
        let ghost pre1 = pre_cmds@;
        let mut ports: Vec<PortDef> = Vec::new();
        let mut i: u64 = 0;
        proof {
            assert(pre_cmds@ =~= pre0 + seq![Command::Bundle(p)] + if is_input {
                Seq::new(0, |j: int| input_wire(p.name, j, def_name(ports@[j])))
            } else {
                Seq::empty()
            });
            assert(post_cmds@ =~= post0 + if is_input {
                Seq::empty()
            } else {
                Seq::new(0, |j: int| output_wire(p.name, j, def_name(ports@[j])))
            });
        }
        while i < n
            invariant
                p.typ.len == Expr::Concrete(n),
                i <= n,
                ports@.len() == i,
                syms.wf(),
                syms.extends(&syms0),
                syms0.valid(p.name),
                forall|j: int|
                    0 <= j < i ==> is_elem_port(
                        syms,
                        syms0.name_of(p.name),
                        p,
                        j,
                        #[trigger] ports@[j],
                    ),
                pre_cmds@ == pre0 + seq![Command::Bundle(p)] + if is_input {
                    Seq::new(i as nat, |j: int| input_wire(p.name, j, def_name(ports@[j])))
                } else {
                    Seq::empty()
                },
                post_cmds@ == post0 + if is_input {
                    Seq::empty()
                } else {
                    Seq::new(i as nat, |j: int| output_wire(p.name, j, def_name(ports@[j])))
                },
            decreases n - i,
        {
            let ghost syms_b = *syms;
            let ghost ports_b = ports@;
            let ghost pre_b = pre_cmds@;
            let ghost post_b = post_cmds@;
            let bind = Binding::new(vec![(p.typ.idx, Expr::Concrete(i))]);
            let liveness = p.typ.liveness.resolve(&bind);
            let s = indexed_name(syms.name(p.name), i);
            let name = syms.intern(s);
            let this_port = Port::This(name);
            let bundle_port = Port::bundle(p.name, Access::Index(Expr::Concrete(i)));
            if is_input {
                pre_cmds.push(Command::Connect(Connect { dst: bundle_port, src: this_port }));
            } else {
                post_cmds.push(Command::Connect(Connect { dst: this_port, src: bundle_port }));
            }
            ports.push(PortDef::Port { name, liveness, bitwidth: p.typ.bitwidth.copy() });
            proof {
                assert(bind.pairs@ =~= seq![(p.typ.idx, Expr::Concrete(i))]);
                assert(syms_b.name_of(p.name) == syms0.name_of(p.name));
                assert forall|j: int| 0 <= j < i implies is_elem_port(
                    syms,
                    syms0.name_of(p.name),
                    p,
                    j,
                    #[trigger] ports@[j],
                ) by {
                    assert(ports@[j] == ports_b[j]);
                    match ports_b[j] {
                        PortDef::Port { name: nj, .. } => {
                            assert(syms.names@[nj.sym as int] == syms_b.names@[nj.sym as int]);
                        },
                        _ => {},
                    }
                }
                assert(is_elem_port(syms, syms0.name_of(p.name), p, i as int, ports@[i as int]));
                if is_input {
                    assert(pre_cmds@ =~= pre0 + seq![Command::Bundle(p)] + Seq::new(
                        (i + 1) as nat,
                        |j: int| input_wire(p.name, j, def_name(ports@[j])),
                    ));
                    assert(post_cmds@ =~= post0 + Seq::<Command>::empty());
                } else {
                    assert(post_cmds@ =~= post0 + Seq::new(
                        (i + 1) as nat,
                        |j: int| output_wire(p.name, j, def_name(ports@[j])),
                    ));
                    assert(pre_cmds@ =~= pre0 + seq![Command::Bundle(p)] + Seq::<Command>::empty());
                }
            }
            i = i + 1;
        }
        Ok((ports, is_input))
    }
}

/// The tables before and after lowering signature ports of `comp`: only new
/// splice entries of `comp` were added.
pub open spec fn adds_splices_of(prev: &BundleElim, next: &BundleElim, comp: Id) -> bool {
    &&& prefix_of(prev.sig_bundle_map@, next.sig_bundle_map@)
    &&& forall|j: int|
        prev.sig_bundle_map@.len() <= j < next.sig_bundle_map@.len() ==> (
        #[trigger] next.sig_bundle_map@[j]).comp == comp
    &&& next.inst_map@ == prev.inst_map@
    &&& next.inv_map@ == prev.inv_map@
}

/// A splice entry lists, in order, the ports `b_0, b_1, ..` of its bundle `b`.
pub open spec fn entry_named(syms: &Symbols, e: SigBundle) -> bool {
    &&& syms.valid(e.bundle)
    &&& forall|k: int|
        0 <= k < e.ports@.len() ==> syms.valid(#[trigger] e.ports@[k]) && syms.name_of(e.ports@[k])
            == indexed(syms.name_of(e.bundle), k as nat)
}

/// Every splice entry of `next` from position `from` on is named after its bundle.
pub open spec fn entries_named_from(next: &BundleElim, syms: &Symbols, from: int) -> bool {
    forall|j: int|
        from <= j < next.sig_bundle_map@.len() ==> entry_named(syms, #[trigger] next.sig_bundle_map@[j])
}

/// An entry keeps its names when the table of names grows.
proof fn lemma_entry_named_grow(a: &Symbols, b: &Symbols, e: SigBundle)
    requires
        entry_named(a, e),
        b.extends(a),
    ensures
        entry_named(b, e),
{
    assert(b.names@[e.bundle.sym as int] == a.names@[e.bundle.sym as int]);
    assert forall|k: int| 0 <= k < e.ports@.len() implies b.valid(#[trigger] e.ports@[k])
        && b.name_of(e.ports@[k]) == indexed(b.name_of(e.bundle), k as nat) by {
        assert(b.names@[e.ports@[k].sym as int] == a.names@[e.ports@[k].sym as int]);
    }
}

/// The commands put before the body when `d` lowers to the ports `out`: a
/// bundle moves into the body, and an input bundle is filled from its ports.
pub open spec fn def_pre(d: PortDef, out: Seq<PortDef>, is_input: bool) -> Seq<Command> {
    match d {
        PortDef::Bundle(b) => seq![Command::Bundle(b)] + if is_input {
            Seq::new(out.len(), |i: int| input_wire(b.name, i, def_name(out[i])))
        } else {
            Seq::empty()
        },
        _ => Seq::empty(),
    }
}

/// The commands put after the body when `d` lowers to the ports `out`: an
/// output bundle drives its ports.
pub open spec fn def_post(d: PortDef, out: Seq<PortDef>, is_input: bool) -> Seq<Command> {
    match d {
        PortDef::Bundle(b) => if is_input {
            Seq::empty()
        } else {
            Seq::new(out.len(), |i: int| output_wire(b.name, i, def_name(out[i])))
        },
        _ => Seq::empty(),
    }
}

/// The splice entry recorded when `d` of `comp` lowers to the ports `out`:
/// one per bundle, listing the names of its ports in index order.
pub open spec fn def_entry(comp: Id, d: PortDef, out: Seq<PortDef>) -> Seq<(Id, Id, Seq<Id>)> {
    match d {
        PortDef::Bundle(b) => seq![(comp, b.name, out.map_values(|x: PortDef| def_name(x)))],
        _ => Seq::empty(),
    }
}

/// The commands put before the body when `defs` lower to `out`, in order.
pub open spec fn lowered_pre(defs: Seq<PortDef>, out: Seq<PortDef>, is_input: bool) -> Seq<Command>
    decreases defs.len(),
{
    if defs.len() == 0 {
        Seq::empty()
    } else {
        let n = def_width(defs.last());
        lowered_pre(defs.drop_last(), out.subrange(0, out.len() - n), is_input) + def_pre(
            defs.last(),
            out.subrange(out.len() - n, out.len() as int),
            is_input,
        )
    }
}

/// The commands put after the body when `defs` lower to `out`, in order.
pub open spec fn lowered_post(defs: Seq<PortDef>, out: Seq<PortDef>, is_input: bool) -> Seq<Command>
    decreases defs.len(),
{
    if defs.len() == 0 {
        Seq::empty()
    } else {
        let n = def_width(defs.last());
        lowered_post(defs.drop_last(), out.subrange(0, out.len() - n), is_input) + def_post(
            defs.last(),
            out.subrange(out.len() - n, out.len() as int),
            is_input,
        )
    }
}

/// The splice entries recorded when `defs` of `comp` lower to `out`, in order.
pub open spec fn lowered_entries(comp: Id, defs: Seq<PortDef>, out: Seq<PortDef>) -> Seq<
    (Id, Id, Seq<Id>),
>
    decreases defs.len(),
{
    if defs.len() == 0 {
        Seq::empty()
    } else {
        let n = def_width(defs.last());
        lowered_entries(comp, defs.drop_last(), out.subrange(0, out.len() - n)) + def_entry(
            comp,
            defs.last(),
            out.subrange(out.len() - n, out.len() as int),
        )
    }
}

impl BundleElim {
    /// Lower the port definitions of one side of the signature of `comp`.
    #[verifier::loop_isolation(false)]
    fn lower_defs(
        &mut self,
        comp: Id,
        defs: Vec<PortDef>,
        is_input: bool,
        pre_cmds: &mut Vec<Command>,
        post_cmds: &mut Vec<Command>,
        syms: &mut Symbols,
    ) -> (r: Result<Vec<PortDef>, ElimError>)
        requires
            old(syms).wf(),
            bundles_named_in(defs@, old(syms)),
        ensures
            final(syms).wf(),
            final(syms).extends(old(syms)),
            adds_splices_of(old(self), final(self), comp),
            entries_named_from(final(self), final(syms), old(self).sig_bundle_map@.len() as int),
            match r {
                Ok(out) => {
                    &&& lens_constant(defs@)
                    &&& all_scalar(out@)
                    &&& defs_lowered(defs@, out@)
                    &&& final(pre_cmds)@ == old(pre_cmds)@ + lowered_pre(defs@, out@, is_input)
                    &&& final(post_cmds)@ == old(post_cmds)@ + lowered_post(defs@, out@, is_input)
                    &&& final(self)@.splices == old(self)@.splices + lowered_entries(comp, defs@, out@)
                },
                Err(e) => !lens_constant(defs@) && e is NonConstantLength,
            },
    {
        let ghost g = defs@;
        let ghost pre0 = pre_cmds@;
        let ghost post0 = post_cmds@;
        let ghost sp0 = self@.splices;
        let ghost st0 = *self;
        let ghost syms0 = *syms;
        let mut rest = defs;
        let mut out: Vec<PortDef> = Vec::new();
        let ghost mut i: int = 0;
        proof {
            assert(g.subrange(0, 0) =~= Seq::<PortDef>::empty());
            assert(rest@ =~= g.subrange(0, g.len() as int));
            assert(pre_cmds@ =~= pre0 + Seq::<Command>::empty());
            assert(post_cmds@ =~= post0 + Seq::<Command>::empty());
            assert(self@.splices =~= sp0 + Seq::<(Id, Id, Seq<Id>)>::empty());
        }
        while rest.len() > 0
            invariant
                0 <= i <= g.len(),
                rest@ == g.subrange(i, g.len() as int),
                syms.wf(),
                syms.extends(&syms0),
                adds_splices_of(&st0, self, comp),
                entries_named_from(self, syms, st0.sig_bundle_map@.len() as int),
                lens_constant(g.subrange(0, i)),
                all_scalar(out@),
                defs_lowered(g.subrange(0, i), out@),
                pre_cmds@ == pre0 + lowered_pre(g.subrange(0, i), out@, is_input),
                post_cmds@ == post0 + lowered_post(g.subrange(0, i), out@, is_input),
                self@.splices == sp0 + lowered_entries(comp, g.subrange(0, i), out@),
            decreases rest@.len(),
        {
            let ghost before = rest@;
            let ghost out0 = out@;
            let d = rest.remove(0);
            proof {
                assert(rest@ =~= g.subrange(i + 1, g.len() as int));
                assert(d == g[i]);
                assert(g.subrange(0, i + 1).drop_last() =~= g.subrange(0, i));
                assert(g.subrange(0, i + 1).last() == d);
            }
            match d {
                PortDef::Port { name, liveness, bitwidth } => {
                    out.push(PortDef::Port { name, liveness, bitwidth });
                    proof {
                        assert(out@.subrange(out@.len() - 1, out@.len() as int) =~= seq![d]);
                        assert(out@.subrange(0, out@.len() - 1) =~= out0);
                        let gi = g.subrange(0, i + 1);
                        assert(def_width(gi.last()) == 1);
                        assert(lowered_pre(gi, out@, is_input) =~= lowered_pre(g.subrange(0, i), out0, is_input));
                        assert(lowered_post(gi, out@, is_input) =~= lowered_post(g.subrange(0, i), out0, is_input));
                        assert(lowered_entries(comp, gi, out@) =~= lowered_entries(comp, g.subrange(0, i), out0));
                        assert forall|j: int| 0 <= j < i + 1 implies match #[trigger] g.subrange(
                            0,
                            i + 1,
                        )[j] {
                            PortDef::Bundle(b) => b.typ.len is Concrete,
                            _ => true,
                        } by {
                            if j < i {
                                assert(g.subrange(0, i + 1)[j] == g.subrange(0, i)[j]);
                            }
                        }
                    }
                },
                PortDef::Bundle(b) => {
                    let b_name = b.name;
                    let ghost gb = b;
                    proof {
                        assert(g[i] == PortDef::Bundle(b));
                    }
                    let ghost syms_b = *syms;
                    let ghost self_b = *self;
                    let ghost pre_b = pre_cmds@;
                    let ghost post_b = post_cmds@;
                    match Self::compile_sig_port(b, is_input, pre_cmds, post_cmds, syms) {
                        Err(e) => {
                            proof {
                                assert(!(match g[i] {
                                    PortDef::Bundle(b) => b.typ.len is Concrete,
                                    _ => true,
                                }));
                            }
                            return Err(e);
                        },
                        Ok((ports, _)) => {
                            let names = def_names(&ports);
                            let ghost gnames = names@;
                            let entry = SigBundle { comp, bundle: b_name, ports: names };
                            proof {
                                assert(syms.names@[b_name.sym as int] == syms_b.names@[b_name.sym as int]);
                                assert forall|k: int| 0 <= k < entry.ports@.len() implies syms.valid(
                                    #[trigger] entry.ports@[k],
                                ) && syms.name_of(entry.ports@[k]) == indexed(
                                    syms.name_of(entry.bundle),
                                    k as nat,
                                ) by {
                                    assert(is_elem_port(syms, syms_b.name_of(gb.name), gb, k, ports@[k]));
                                    assert(entry.ports@[k] == def_name(ports@[k]));
                                }
                                assert(entry_named(syms, entry));
                                assert forall|j: int|
                                    st0.sig_bundle_map@.len() <= j < self_b.sig_bundle_map@.len() implies entry_named(
                                    syms,
                                    #[trigger] self_b.sig_bundle_map@[j],
                                ) by {
                                    lemma_entry_named_grow(&syms_b, syms, self_b.sig_bundle_map@[j]);
                                }
                            }
                            self.sig_bundle_map.push(entry);
                            let ghost gp = ports@;
                            let mut ports = ports;
                            out.append(&mut ports);
                            proof {
                                assert(out@.subrange(out@.len() - gp.len(), out@.len() as int)
                                    =~= gp);
                                assert(out@.subrange(0, out@.len() - gp.len()) =~= out0);
                                let gi = g.subrange(0, i + 1);
                                assert(def_width(gi.last()) == gp.len());
                                assert(def_pre(gi.last(), gp, is_input) =~= seq![Command::Bundle(gb)] + if is_input {
                                    Seq::new(gp.len(), |j: int| input_wire(gb.name, j, def_name(gp[j])))
                                } else {
                                    Seq::empty()
                                });
                                assert(pre_cmds@ =~= pre0 + (lowered_pre(g.subrange(0, i), out0, is_input) + def_pre(gi.last(), gp, is_input)));
                                assert(lowered_pre(gi, out@, is_input) == lowered_pre(g.subrange(0, i), out0, is_input) + def_pre(gi.last(), gp, is_input));
                                assert(post_cmds@ =~= post0 + (lowered_post(g.subrange(0, i), out0, is_input) + def_post(gi.last(), gp, is_input)));
                                assert(lowered_post(gi, out@, is_input) == lowered_post(g.subrange(0, i), out0, is_input) + def_post(gi.last(), gp, is_input));
                                assert(gnames =~= gp.map_values(|x: PortDef| def_name(x)));
                                assert(self@.splices =~= self_b@.splices.push((comp, b_name, gnames)));
                                assert(self@.splices =~= sp0 + (lowered_entries(comp, g.subrange(0, i), out0) + def_entry(comp, gi.last(), gp)));
                                assert(lowered_entries(comp, gi, out@) == lowered_entries(comp, g.subrange(0, i), out0) + def_entry(comp, gi.last(), gp));
                                assert forall|j: int| 0 <= j < out@.len() implies (
                                #[trigger] out@[j]) is Port by {
                                    if j >= out0.len() {
                                        assert(out@[j] == gp[j - out0.len()]);
                                    }
                                }
                                assert forall|j: int| 0 <= j < i + 1 implies match #[trigger] g.subrange(
                                    0,
                                    i + 1,
                                )[j] {
                                    PortDef::Bundle(b) => b.typ.len is Concrete,
                                    _ => true,
                                } by {
                                    if j < i {
                                        assert(g.subrange(0, i + 1)[j] == g.subrange(0, i)[j]);
                                    }
                                }
                            }
                        },
                    }
                },
            }
            proof {
                i = i + 1;
            }
        }
        proof {
            assert(g.subrange(0, i) =~= g);
        }
        Ok(out)
    }
}

/// `s2` is the signature `s` with every port definition lowered to scalar ports.
pub open spec fn sig_lowered(s: Signature, s2: Signature) -> bool {
    &&& s2.name == s.name
    &&& all_scalar(s2.inputs@)
    &&& all_scalar(s2.outputs@)
    &&& defs_lowered(s.inputs@, s2.inputs@)
    &&& defs_lowered(s.outputs@, s2.outputs@)
}

/// The commands put before the body when `s` lowers to `s2`: inputs first.
pub open spec fn sig_pre(s: Signature, s2: Signature) -> Seq<Command> {
    lowered_pre(s.inputs@, s2.inputs@, true) + lowered_pre(s.outputs@, s2.outputs@, false)
}

/// The commands put after the body when `s` lowers to `s2`.
pub open spec fn sig_post(s: Signature, s2: Signature) -> Seq<Command> {
    lowered_post(s.inputs@, s2.inputs@, true) + lowered_post(s.outputs@, s2.outputs@, false)
}

/// The splice entries recorded when `s` lowers to `s2`, one per bundle.
pub open spec fn sig_entries(s: Signature, s2: Signature) -> Seq<(Id, Id, Seq<Id>)> {
    lowered_entries(s.name, s.inputs@, s2.inputs@) + lowered_entries(s.name, s.outputs@, s2.outputs@)
}

/// The tables in which a body is rewritten: the splice table, and no
/// instance or invocation yet.
pub open spec fn fresh_maps(splices: Seq<(Id, Id, Seq<Id>)>) -> ElimMaps {
    ElimMaps { splices, insts: Seq::empty(), invs: Seq::empty() }
}

/// `body2` is `pre`, then `body` of component `name` rewritten against
/// `splices`, then `post`.
pub open spec fn assembled(
    name: Id,
    body: Seq<Command>,
    pre: Seq<Command>,
    post: Seq<Command>,
    body2: Seq<Command>,
    splices: Seq<(Id, Id, Seq<Id>)>,
) -> bool {
    &&& pre.len() + post.len() <= body2.len()
    &&& body2.subrange(0, pre.len() as int) == pre
    &&& body2.subrange(body2.len() - post.len(), body2.len() as int) == post
    &&& cmds_spec(fresh_maps(splices), name, cmds_view(body)).1 == Ok::<Seq<CmdView>, ElimError>(
        cmds_view(body2.subrange(pre.len() as int, body2.len() - post.len())),
    )
}

/// `c2` is `c` after elimination against the splice table `splices`: its
/// signature is lowered, and its body is the bundle declarations and input
/// wiring, then the rewritten body, then the output wiring.
pub open spec fn component_lowered(c: Component, c2: Component, splices: Seq<(Id, Id, Seq<Id>)>) -> bool {
    &&& sig_lowered(c.sig, c2.sig)
    &&& assembled(
        c.sig.name,
        c.body@,
        sig_pre(c.sig, c2.sig),
        sig_post(c.sig, c2.sig),
        c2.body@,
        splices,
    )
}

/// The splice table built by lowering the first `k` signatures of `olds` to
/// `news`, in order.
pub open spec fn table_upto(olds: Seq<Component>, news: Seq<Signature>, k: int) -> Seq<
    (Id, Id, Seq<Id>),
>
    decreases k,
{
    if k <= 0 {
        Seq::empty()
    } else {
        table_upto(olds, news, k - 1) + sig_entries(olds[k - 1].sig, news[k - 1])
    }
}

proof fn lemma_table_upto_push(olds: Seq<Component>, news: Seq<Signature>, s2: Signature, k: int)
    requires
        k <= news.len(),
    ensures
        table_upto(olds, news.push(s2), k) == table_upto(olds, news, k),
    decreases k,
{
    if k > 0 {
        lemma_table_upto_push(olds, news, s2, k - 1);
        assert(news.push(s2)[k - 1] == news[k - 1]);
    }
}

/// The signatures of a list of components.
pub open spec fn comp_sigs(cs: Seq<Component>) -> Seq<Signature> {
    cs.map_values(|c: Component| c.sig)
}

/// A signature bundle of `c` has a length that is not a literal.
pub open spec fn sig_fails(c: Component) -> bool {
    !(lens_constant(c.sig.inputs@) && lens_constant(c.sig.outputs@))
}

/// Rewriting the body of component `i` against the table built from `news`
/// fails with `e`.
pub open spec fn body_fails_at(olds: Seq<Component>, news: Seq<Signature>, i: int, e: ElimError) -> bool {
    cmds_spec(
        fresh_maps(table_upto(olds, news, olds.len() as int)),
        olds[i].sig.name,
        cmds_view(olds[i].body@),
    ).1 == Err::<Seq<CmdView>, ElimError>(e)
}

/// Every port listed by a splice entry is named after its bundle and index.
pub open spec fn triple_named(syms: &Symbols, t: (Id, Id, Seq<Id>)) -> bool {
    &&& syms.valid(t.1)
    &&& forall|k: int|
        0 <= k < t.2.len() ==> syms.valid(#[trigger] t.2[k]) && syms.name_of(t.2[k]) == indexed(
            syms.name_of(t.1),
            k as nat,
        )
}

/// `p` is not a ranged access, so rewriting leaves it as it is.
pub open spec fn port_plain(p: Port) -> bool {
    match p {
        Port::Bundle { access: Access::Range { .. }, .. } => false,
        Port::InvBundle { access: Access::Range { .. }, .. } => false,
        _ => true,
    }
}

/// No invocation of `c` passes a ranged access, and no connection writes to
/// a range of an invocation's bundle.
pub open spec fn cmd_plain(c: CmdView) -> bool
    decreases c,
{
    match c {
        CmdView::Invoke { ports: Some(ps), .. } => forall|k: int|
            0 <= k < ps.len() ==> port_plain(#[trigger] ps[k]),
        CmdView::Connect(con) => port_plain(con.dst) || con.dst is Bundle,
        CmdView::ForLoop { body, .. } => cmds_plain(body),
        CmdView::If { on_true, on_false, .. } => cmds_plain(on_true) && cmds_plain(on_false),
        _ => true,
    }
}

pub open spec fn cmds_plain(cs: Seq<CmdView>) -> bool
    decreases cs,
{
    if cs.len() == 0 {
        true
    } else {
        cmd_plain(cs[0]) && cmds_plain(cs.subrange(1, cs.len() as int))
    }
}

proof fn lemma_ports_plain_ok(m: ElimMaps, cur: Id, ps: Seq<Port>)
    requires
        forall|k: int| 0 <= k < ps.len() ==> port_plain(#[trigger] ps[k]),
    ensures
        ports_spec(m, cur, ps) is Ok,
    decreases ps.len(),
{
    if ps.len() > 0 {
        let rest = ps.subrange(1, ps.len() as int);
        assert forall|k: int| 0 <= k < rest.len() implies port_plain(#[trigger] rest[k]) by {
            assert(rest[k] == ps[k + 1]);
        }
        assert(port_plain(ps[0]));
        lemma_ports_plain_ok(m, cur, rest);
    }
}

proof fn lemma_cmd_plain_ok(m: ElimMaps, cur: Id, c: CmdView)
    requires
        cmd_plain(c),
    ensures
        cmd_spec(m, cur, c).1 is Ok,
    decreases c,
{
    match c {
        CmdView::Invoke { name, instance, ports } => {
            if let Some(ps) = ports {
                lemma_ports_plain_ok(with_inv(m, name, instance), cur, ps);
            }
        },
        CmdView::ForLoop { body, .. } => {
            lemma_cmds_plain_ok(m, cur, body);
        },
        CmdView::If { on_true, on_false, .. } => {
            lemma_cmds_plain_ok(m, cur, on_true);
            let m1 = cmds_spec(m, cur, on_true).0;
            lemma_cmds_plain_ok(m1, cur, on_false);
        },
        _ => {},
    }
}

proof fn lemma_cmds_plain_ok(m: ElimMaps, cur: Id, cs: Seq<CmdView>)
    requires
        cmds_plain(cs),
    ensures
        cmds_spec(m, cur, cs).1 is Ok,
    decreases cs,
{
    if cs.len() > 0 {
        lemma_cmd_plain_ok(m, cur, cs[0]);
        let m1 = cmd_spec(m, cur, cs[0]).0;
        lemma_cmds_plain_ok(m1, cur, cs.subrange(1, cs.len() as int));
    }
}

/// Eliminating `c` cannot fail: its signature bundles have literal lengths
/// and its body splats no range.
pub open spec fn plain_component(c: Component) -> bool {
    &&& lens_constant(c.sig.inputs@)
    &&& lens_constant(c.sig.outputs@)
    &&& cmds_plain(cmds_view(c.body@))
}

/// The names of the signature bundles of `c` are interned in `syms`.
pub open spec fn sig_named_in(c: Component, syms: &Symbols) -> bool {
    bundles_named_in(c.sig.inputs@, syms) && bundles_named_in(c.sig.outputs@, syms)
}

impl BundleElim {
    /// Lower the signature: returns it with only scalar ports, the bundle
    /// declarations and input wiring to put before the body, and the output
    /// wiring to put after it. One splice entry is recorded per bundle.
    pub fn sig(&mut self, sig: Signature, syms: &mut Symbols) -> (r: Result<
        (Signature, Vec<Command>, Vec<Command>),
        ElimError,
    >)
        requires
            old(syms).wf(),
            bundles_named_in(sig.inputs@, old(syms)),
            bundles_named_in(sig.outputs@, old(syms)),
        ensures
            final(syms).wf(),
            final(syms).extends(old(syms)),
            adds_splices_of(old(self), final(self), sig.name),
            entries_named_from(final(self), final(syms), old(self).sig_bundle_map@.len() as int),
            match r {
                Ok((s2, pre, post)) => {
                    &&& sig_lowered(sig, s2)
                    &&& pre@ == sig_pre(sig, s2)
                    &&& post@ == sig_post(sig, s2)
                    &&& final(self)@.splices == old(self)@.splices + sig_entries(sig, s2)
                },
                Err(e) => !(lens_constant(sig.inputs@) && lens_constant(sig.outputs@))
                    && e is NonConstantLength,
            },
    {
        let mut pre_cmds: Vec<Command> = Vec::new();
        let mut post_cmds: Vec<Command> = Vec::new();
        let Signature { name, inputs, outputs } = sig;
        let ghost syms0 = *syms;
        let ghost sp0 = self@.splices;
        let inputs = match self.lower_defs(name, inputs, true, &mut pre_cmds, &mut post_cmds, syms) {
            Ok(v) => v,
            Err(e) => {
                return Err(e);
            },
        };
        proof {
            assert forall|j: int| 0 <= j < sig.outputs@.len() implies match #[trigger] sig.outputs@[j] {
                PortDef::Bundle(b) => syms.valid(b.name),
                _ => true,
            } by {
                match sig.outputs@[j] {
                    PortDef::Bundle(b) => assert(syms0.valid(b.name)),
                    _ => {},
                }
            }
        }
        let ghost syms1 = *syms;
        let ghost self1 = *self;
        let ghost pre1 = pre_cmds@;
        let ghost post1 = post_cmds@;
        let outputs = match self.lower_defs(name, outputs, false, &mut pre_cmds, &mut post_cmds, syms) {
            Ok(v) => v,
            Err(e) => {
                return Err(e);
            },
        };
        let s2 = Signature { name, inputs, outputs };
        proof {
            assert forall|j: int|
                old(self).sig_bundle_map@.len() <= j < self1.sig_bundle_map@.len() implies entry_named(
                syms,
                #[trigger] self.sig_bundle_map@[j],
            ) by {
                assert(self.sig_bundle_map@[j] == self1.sig_bundle_map@[j]);
                lemma_entry_named_grow(&syms1, syms, self1.sig_bundle_map@[j]);
            }
            assert(pre_cmds@ =~= sig_pre(sig, s2));
            assert(post_cmds@ =~= sig_post(sig, s2));
            assert(self@.splices =~= sp0 + sig_entries(sig, s2));
        }
        Ok((s2, pre_cmds, post_cmds))
    }

    /// Rewrite a component's body against the current splice table, with
    /// fresh instance and invocation tables, between the commands `pre` and
    /// `post` that its signature lowering produced.
    fn rewrite_body(
        &mut self,
        sig: Signature,
        pre_cmds: Vec<Command>,
        body: Vec<Command>,
        post_cmds: Vec<Command>,
    ) -> (r: Result<Component, ElimError>)
        ensures
            final(self).sig_bundle_map@ == old(self).sig_bundle_map@,
            match r {
                Ok(c2) => c2.sig == sig && assembled(
                    sig.name,
                    body@,
                    pre_cmds@,
                    post_cmds@,
                    c2.body@,
                    old(self)@.splices,
                ),
                Err(e) => cmds_spec(fresh_maps(old(self)@.splices), sig.name, cmds_view(body@)).1
                    == Err::<Seq<CmdView>, ElimError>(e),
            },
    {
        self.inst_map = Vec::new();
        self.inv_map = Vec::new();
        proof {
            assert(self@ =~= fresh_maps(old(self)@.splices));
        }
        let mut body2 = match self.commands(sig.name, body) {
            Ok(b) => b,
            Err(e) => {
                return Err(e);
            },
        };
        let ghost gb = body2@;
        let ghost gpre = pre_cmds@;
        let ghost gpost = post_cmds@;
        let mut out = pre_cmds;
        out.append(&mut body2);
        let mut post_cmds = post_cmds;
        out.append(&mut post_cmds);
        proof {
            assert(out@ =~= gpre + gb + gpost);
            assert(out@.subrange(0, gpre.len() as int) =~= gpre);
            assert(out@.subrange(out@.len() - gpost.len(), out@.len() as int) =~= gpost);
            assert(out@.subrange(gpre.len() as int, out@.len() - gpost.len()) =~= gb);
        }
        Ok(Component { sig, body: out })
    }

    /// Eliminate the bundles of one component.
    pub fn component(&mut self, comp: Component, syms: &mut Symbols) -> (r: Result<
        Component,
        ElimError,
    >)
        requires
            old(syms).wf(),
            sig_named_in(comp, old(syms)),
        ensures
            final(syms).wf(),
            final(syms).extends(old(syms)),
            entries_named_from(final(self), final(syms), old(self).sig_bundle_map@.len() as int),
            match r {
                Ok(c2) => {
                    &&& final(self)@.splices == old(self)@.splices + sig_entries(comp.sig, c2.sig)
                    &&& component_lowered(comp, c2, final(self)@.splices)
                },
                Err(e) => sig_fails(comp) || cmds_spec(
                    fresh_maps(final(self)@.splices),
                    comp.sig.name,
                    cmds_view(comp.body@),
                ).1 == Err::<Seq<CmdView>, ElimError>(e),
            },
    {
        let ghost gc = comp;
        let Component { sig, body } = comp;
        let (sig, pre_cmds, post_cmds) = match self.sig(sig, syms) {
            Ok(t) => t,
            Err(e) => {
                return Err(e);
            },
        };
        self.rewrite_body(sig, pre_cmds, body, post_cmds)
    }

    /// Eliminate bundles from every component of the program. All signatures
    /// are lowered first, so the splice table is complete before any body is
    /// rewritten, and the order of the components does not matter.
    #[verifier::loop_isolation(false)]
    pub fn transform(old_ns: Namespace) -> (r: Result<Namespace, ElimError>)
        requires
            old_ns.symbols.wf(),
            forall|i: int|
                0 <= i < old_ns.components@.len() ==> sig_named_in(
                    #[trigger] old_ns.components@[i],
                    &old_ns.symbols,
                ),
        ensures
            match r {
                Ok(ns) => {
                    let olds = old_ns.components@;
                    let table = table_upto(olds, comp_sigs(ns.components@), olds.len() as int);
                    &&& ns.symbols.wf()
                    &&& ns.symbols.extends(&old_ns.symbols)
                    &&& ns.components@.len() == olds.len()
                    &&& forall|i: int|
                        0 <= i < olds.len() ==> component_lowered(
                            olds[i],
                            #[trigger] ns.components@[i],
                            table,
                        )
                    &&& forall|k: int| 0 <= k < table.len() ==> triple_named(&ns.symbols, #[trigger] table[k])
                },
                Err(e) => {
                    let olds = old_ns.components@;
                    ||| exists|i: int| 0 <= i < olds.len() && #[trigger] sig_fails(olds[i])
                    ||| exists|news: Seq<Signature>|
                        news.len() == olds.len() && (forall|j: int|
                            0 <= j < olds.len() ==> sig_lowered(olds[j].sig, #[trigger] news[j]))
                            && exists|i: int|
                            0 <= i < olds.len() && #[trigger] body_fails_at(olds, news, i, e)
                },
            },
            (forall|i: int|
                0 <= i < old_ns.components@.len() ==> plain_component(
                    #[trigger] old_ns.components@[i],
                )) ==> r is Ok,
    {
        let mut pass = BundleElim::new();
        let ghost g = old_ns.components@;
        let ghost n = g.len() as int;
        let ghost syms0 = old_ns.symbols;
        let Namespace { components, symbols } = old_ns;
        let mut symbols = symbols;
        let mut rest = components;
        let mut staged: Vec<(Signature, Vec<Command>, Vec<Command>, Vec<Command>)> = Vec::new();
        let ghost mut news: Seq<Signature> = Seq::empty();
        let ghost mut i: int = 0;
        proof {
            assert(rest@ =~= g.subrange(0, n));
            assert(pass@.splices =~= Seq::<(Id, Id, Seq<Id>)>::empty());
        }
        while rest.len() > 0
            invariant
                0 <= i <= n,
                rest@ == g.subrange(i, n),
                staged@.len() == i,
                news.len() == i,
                symbols.wf(),
                symbols.extends(&syms0),
                forall|j: int| 0 <= j < n ==> sig_named_in(#[trigger] g[j], &syms0),
                forall|j: int|
                    0 <= j < i ==> {
                        &&& news[j] == (#[trigger] staged@[j]).0
                        &&& sig_lowered(g[j].sig, staged@[j].0)
                        &&& staged@[j].1@ == sig_pre(g[j].sig, staged@[j].0)
                        &&& staged@[j].2@ == g[j].body@
                        &&& staged@[j].3@ == sig_post(g[j].sig, staged@[j].0)
                    },
                pass@.splices == table_upto(g, news, i),
                entries_named_from(&pass, &symbols, 0),
            decreases rest@.len(),
        {
            let c = rest.remove(0);
            proof {
                assert(rest@ =~= g.subrange(i + 1, n));
                assert(c == g[i]);
                assert(sig_named_in(c, &syms0));
                assert forall|j: int| 0 <= j < c.sig.inputs@.len() implies match #[trigger] c.sig.inputs@[j] {
                    PortDef::Bundle(b) => symbols.valid(b.name),
                    _ => true,
                } by {
                    match c.sig.inputs@[j] {
                        PortDef::Bundle(b) => assert(syms0.valid(b.name)),
                        _ => {},
                    }
                }
                assert forall|j: int| 0 <= j < c.sig.outputs@.len() implies match #[trigger] c.sig.outputs@[j] {
                    PortDef::Bundle(b) => symbols.valid(b.name),
                    _ => true,
                } by {
                    match c.sig.outputs@[j] {
                        PortDef::Bundle(b) => assert(syms0.valid(b.name)),
                        _ => {},
                    }
                }
            }
            let ghost syms_b = symbols;
            let ghost pass_b = pass;
            let Component { sig, body } = c;
            let (s2, pre_cmds, post_cmds) = match pass.sig(sig, &mut symbols) {
                Ok(t) => t,
                Err(e) => {
                    proof {
                        assert(sig_fails(g[i]));
                    }
                    return Err(e);
                },
            };
            let ghost gs2 = s2;
            let ghost gstaged = staged@;
            staged.push((s2, pre_cmds, body, post_cmds));
            proof {
                lemma_table_upto_push(g, news, gs2, i);
                news = news.push(gs2);
                assert(table_upto(g, news, i + 1) == table_upto(g, news, i) + sig_entries(g[i].sig, gs2));
                assert forall|j: int| 0 <= j < i + 1 implies {
                    &&& news[j] == (#[trigger] staged@[j]).0
                    &&& sig_lowered(g[j].sig, staged@[j].0)
                    &&& staged@[j].1@ == sig_pre(g[j].sig, staged@[j].0)
                    &&& staged@[j].2@ == g[j].body@
                    &&& staged@[j].3@ == sig_post(g[j].sig, staged@[j].0)
                } by {
                    if j < i {
                        assert(staged@[j] == gstaged[j]);
                    }
                }
                assert forall|j: int| 0 <= j < pass.sig_bundle_map@.len() implies entry_named(
                    &symbols,
                    #[trigger] pass.sig_bundle_map@[j],
                ) by {
                    if j < pass_b.sig_bundle_map@.len() {
                        assert(pass.sig_bundle_map@[j] == pass_b.sig_bundle_map@[j]);
                        lemma_entry_named_grow(&syms_b, &symbols, pass_b.sig_bundle_map@[j]);
                    }
                }
                i = i + 1;
            }
        }
        proof {
            assert(i == n);
        }
        let ghost table = pass@.splices;
        let ghost sbm = pass.sig_bundle_map@;
        let mut out: Vec<Component> = Vec::new();
        let ghost mut k: int = 0;
        proof {
            assert(staged@ =~= staged@.subrange(0, n));
        }
        let ghost all_staged = staged@;
        while staged.len() > 0
            invariant
                0 <= k <= n,
                staged@ == all_staged.subrange(k, n),
                out@.len() == k,
                pass@.splices == table,
                pass.sig_bundle_map@ == sbm,
                entries_named_from(&pass, &symbols, 0),
                forall|j: int|
                    0 <= j < k ==> (#[trigger] out@[j]).sig == news[j] && component_lowered(
                        g[j],
                        out@[j],
                        table,
                    ),
            decreases staged@.len(),
        {
            let (s2, pre_cmds, body, post_cmds) = staged.remove(0);
            proof {
                assert(staged@ =~= all_staged.subrange(k + 1, n));
                assert(all_staged[k] == (s2, pre_cmds, body, post_cmds));
            }
            let ghost out0 = out@;
            let c2 = match pass.rewrite_body(s2, pre_cmds, body, post_cmds) {
                Ok(c2) => c2,
                Err(e) => {
                    proof {
                        assert(body_fails_at(g, news, k, e));
                        assert forall|j: int| 0 <= j < n implies sig_lowered(g[j].sig, #[trigger] news[j]) by {
                            assert(news[j] == all_staged[j].0);
                        }
                        if plain_component(g[k]) {
                            lemma_cmds_plain_ok(fresh_maps(table), g[k].sig.name, cmds_view(g[k].body@));
                        }
                    }
                    return Err(e);
                },
            };
            out.push(c2);
            proof {
                assert forall|j: int| 0 <= j < k + 1 implies (#[trigger] out@[j]).sig == news[j]
                    && component_lowered(g[j], out@[j], table) by {
                    if j < k {
                        assert(out@[j] == out0[j]);
                    }
                }
                k = k + 1;
            }
        }
        proof {
            assert(comp_sigs(out@) =~= news);
            assert forall|j: int| 0 <= j < table.len() implies triple_named(&symbols, #[trigger] table[j]) by {
                let e = pass.sig_bundle_map@[j];
                assert(entry_named(&symbols, e));
                assert(table[j] == (e.comp, e.bundle, e.ports@));
            }
        }
        Ok(Namespace { components: out, symbols })
    }
}

/// A signature side that holds one bundle of constant length `n` lowers to
/// exactly `n` scalar ports, the one at `i` carrying the bundle's liveness
/// with its index bound to `i`.
pub proof fn lemma_single_bundle_lowered(b: Bundle, out: Seq<PortDef>, n: u64)
    requires
        b.typ.len == Expr::Concrete(n),
        defs_lowered(seq![PortDef::Bundle(b)], out),
    ensures
        out.len() == n,
        all_scalar(out),
        forall|i: int|
            0 <= i < n ==> match #[trigger] out[i] {
                PortDef::Port { liveness, bitwidth, .. } => liveness == resolve_range(
                    b.typ.liveness,
                    seq![(b.typ.idx, Expr::Concrete(i as u64))],
                ) && bitwidth == b.typ.bitwidth,
                PortDef::Bundle(_) => false,
            },
{
    let defs = seq![PortDef::Bundle(b)];
    assert(defs.last() == PortDef::Bundle(b));
    assert(defs.drop_last() =~= Seq::<PortDef>::empty());
    assert(def_width(defs.last()) == n);
    assert(n <= out.len());
    assert(defs_lowered(defs.drop_last(), out.subrange(0, out.len() - n)));
    assert(out.subrange(0, out.len() - n).len() == 0);
    assert(out.subrange(out.len() - n, out.len() as int) =~= out);
    let sub = out.subrange(out.len() - n, out.len() as int);
    assert forall|i: int| 0 <= i < out.len() implies (#[trigger] out[i]) is Port by {
        assert(out[i] == sub[i]);
    }
}

/// Splatting `[a, b)` of a bundle with recorded ports `ps`, where
/// `a <= b <= |ps|`, yields exactly the `b - a` recorded ports `a .. b`, in
/// order.
pub proof fn lemma_splat_recorded(m: ElimMaps, comp: Id, bundle: Id, a: u64, b: u64)
    requires
        splice_of(m.splices, comp, bundle) is Some,
        a <= b <= splice_of(m.splices, comp, bundle)->Some_0.len(),
    ensures
        ({
            let ps = splice_of(m.splices, comp, bundle)->Some_0;
            &&& splat(m, comp, bundle, Expr::Concrete(a), Expr::Concrete(b)) == Ok::<
                Seq<Id>,
                ElimError,
            >(ps.subrange(a as int, b as int))
            &&& ps.subrange(a as int, b as int).len() == b - a
            &&& forall|k: int|
                0 <= k < b - a ==> #[trigger] ps.subrange(a as int, b as int)[k] == ps[a + k]
        }),
{
    let ps = splice_of(m.splices, comp, bundle)->Some_0;
    if a == b {
        assert(ps.subrange(a as int, b as int) =~= Seq::<Id>::empty());
    }
}
} // verus!
