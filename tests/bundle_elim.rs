use filament::ast::{
    Access, Binding, Bundle, BundleType, Command, Component, Connect, Expr, ForLoop, Id, If,
    Instance, Invoke, Namespace, Port, PortDef, Range, Signature, Symbols, Time,
};
use filament::bundle_elim::{BundleElim, ElimError, SigBundle};
use filament::ir::Op;

fn name(syms: &mut Symbols, s: &str) -> Id {
    syms.intern(s.to_string())
}

fn text(syms: &Symbols, id: Id) -> String {
    syms.names[id.sym].clone()
}

fn add(l: Expr, r: Expr) -> Expr {
    Expr::Op { op: Op::Add, left: Box::new(l), right: Box::new(r) }
}

/// `p[len]: for<i> @[G+i, G+i+width]` with 32-bit elements.
fn bundle(syms: &mut Symbols, p: &str, len: Expr, width: u64) -> Bundle {
    let p = name(syms, p);
    let i = name(syms, "i");
    let g = name(syms, "G");
    Bundle {
        name: p,
        typ: BundleType {
            idx: i,
            len,
            liveness: Range {
                start: Time { event: g, offset: Expr::Abstract(i) },
                end: Time { event: g, offset: add(Expr::Abstract(i), Expr::Concrete(width)) },
            },
            bitwidth: Expr::Concrete(32),
        },
    }
}

fn elem(b: Id, i: u64) -> Port {
    Port::Bundle { name: b, access: Access::Index(Expr::Concrete(i)) }
}

fn range(start: u64, end: u64) -> Access {
    Access::Range { start: Expr::Concrete(start), end: Expr::Concrete(end) }
}

#[test]
fn input_bundle_becomes_scalar_ports() {
    // C has input p[4]: for<i> @[G+i, G+i+2].
    let mut syms = Symbols::new();
    let c = name(&mut syms, "C");
    let b = bundle(&mut syms, "p", Expr::Concrete(4), 2);
    let p = b.name;
    let g = name(&mut syms, "G");
    let body = vec![Command::Connect(Connect { dst: Port::This(p), src: Port::Constant(0) })];
    let comp = Component {
        sig: Signature { name: c, inputs: vec![PortDef::Bundle(b)], outputs: vec![] },
        body,
    };
    let ns = BundleElim::transform(Namespace { components: vec![comp], symbols: syms }).unwrap();
    let out = &ns.components[0];
    assert_eq!(out.sig.inputs.len(), 4);
    assert!(out.sig.outputs.is_empty());
    for (k, def) in out.sig.inputs.iter().enumerate() {
        match def {
            PortDef::Port { name, liveness, bitwidth } => {
                assert_eq!(text(&ns.symbols, *name), format!("p_{}", k));
                assert_eq!(liveness.start, Time { event: g, offset: Expr::Concrete(k as u64) });
                assert_eq!(liveness.end, Time { event: g, offset: Expr::Concrete(k as u64 + 2) });
                assert_eq!(*bitwidth, Expr::Concrete(32));
            }
            PortDef::Bundle(_) => panic!("bundle left in the signature"),
        }
    }
    // The bundle moves into the body, then one connection per index, then the body.
    assert_eq!(out.body.len(), 1 + 4 + 1);
    assert!(matches!(&out.body[0], Command::Bundle(b) if b.name == p));
    for k in 0..4u64 {
        let port_k = match &out.sig.inputs[k as usize] {
            PortDef::Port { name, .. } => *name,
            PortDef::Bundle(_) => unreachable!(),
        };
        assert_eq!(
            out.body[1 + k as usize],
            Command::Connect(Connect { dst: elem(p, k), src: Port::This(port_k) })
        );
    }
    assert_eq!(
        out.body[5],
        Command::Connect(Connect { dst: Port::This(p), src: Port::Constant(0) })
    );
}

#[test]
fn output_bundle_drives_ports_after_body() {
    let mut syms = Symbols::new();
    let c = name(&mut syms, "C");
    let b = bundle(&mut syms, "o", Expr::Concrete(3), 1);
    let o = b.name;
    let comp = Component {
        sig: Signature { name: c, inputs: vec![], outputs: vec![PortDef::Bundle(b)] },
        body: vec![],
    };
    let ns = BundleElim::transform(Namespace { components: vec![comp], symbols: syms }).unwrap();
    let out = &ns.components[0];
    assert_eq!(out.sig.outputs.len(), 3);
    assert_eq!(out.body.len(), 1 + 3);
    assert!(matches!(&out.body[0], Command::Bundle(b) if b.name == o));
    for k in 0..3u64 {
        let port_k = match &out.sig.outputs[k as usize] {
            PortDef::Port { name, .. } => *name,
            PortDef::Bundle(_) => unreachable!(),
        };
        assert_eq!(text(&ns.symbols, port_k), format!("o_{}", k));
        assert_eq!(
            out.body[1 + k as usize],
            Command::Connect(Connect { dst: Port::This(port_k), src: elem(o, k) })
        );
    }
}

#[test]
fn scalar_ports_are_kept() {
    let mut syms = Symbols::new();
    let c = name(&mut syms, "C");
    let x = name(&mut syms, "x");
    let g = name(&mut syms, "G");
    let live = Range {
        start: Time { event: g, offset: Expr::Concrete(0) },
        end: Time { event: g, offset: Expr::Concrete(1) },
    };
    let comp = Component {
        sig: Signature {
            name: c,
            inputs: vec![PortDef::Port { name: x, liveness: live, bitwidth: Expr::Concrete(8) }],
            outputs: vec![],
        },
        body: vec![],
    };
    let ns = BundleElim::transform(Namespace { components: vec![comp], symbols: syms }).unwrap();
    assert_eq!(ns.components[0].sig.inputs.len(), 1);
    assert!(matches!(&ns.components[0].sig.inputs[0], PortDef::Port { name, .. } if *name == x));
    assert!(ns.components[0].body.is_empty());
}

#[test]
fn non_constant_length_is_refused() {
    let mut syms = Symbols::new();
    let c = name(&mut syms, "C");
    let n = name(&mut syms, "N");
    let b = bundle(&mut syms, "p", Expr::Abstract(n), 1);
    let p = b.name;
    let comp = Component {
        sig: Signature { name: c, inputs: vec![PortDef::Bundle(b)], outputs: vec![] },
        body: vec![],
    };
    let r = BundleElim::transform(Namespace { components: vec![comp], symbols: syms });
    assert_eq!(r.unwrap_err(), ElimError::NonConstantLength { bundle: p });
}

#[test]
fn splat_signature_and_local_bundles() {
    // Inside C, an invocation reads p[1, 3) of C's own input bundle and q[1, 3) of a local bundle.
    let mut syms = Symbols::new();
    let c = name(&mut syms, "C");
    let b = bundle(&mut syms, "p", Expr::Concrete(4), 2);
    let p = b.name;
    let q = name(&mut syms, "q");
    let inst = name(&mut syms, "x");
    let inv = name(&mut syms, "inv");
    let body = vec![Command::Invoke(Invoke {
        name: inv,
        instance: inst,
        ports: Some(vec![
            Port::Bundle { name: p, access: range(1, 3) },
            Port::Bundle { name: q, access: range(1, 3) },
            Port::Bundle { name: q, access: Access::Index(Expr::Concrete(0)) },
        ]),
    })];
    let comp = Component {
        sig: Signature { name: c, inputs: vec![PortDef::Bundle(b)], outputs: vec![] },
        body,
    };
    let ns = BundleElim::transform(Namespace { components: vec![comp], symbols: syms }).unwrap();
    let out = &ns.components[0];
    let ports = match &out.body[5] {
        Command::Invoke(i) => i.ports.as_ref().unwrap(),
        other => panic!("unexpected {:?}", other),
    };
    assert_eq!(ports.len(), 5);
    let p1 = name_at(&ns.symbols, "p_1");
    let p2 = name_at(&ns.symbols, "p_2");
    assert_eq!(ports[0], Port::This(p1));
    assert_eq!(ports[1], Port::This(p2));
    assert_eq!(ports[2], elem(q, 1));
    assert_eq!(ports[3], elem(q, 2));
    assert_eq!(ports[4], elem(q, 0));
}

fn name_at(syms: &Symbols, s: &str) -> Id {
    Id { sym: syms.names.iter().position(|n| n == s).unwrap() }
}

#[test]
fn splat_through_invocation() {
    // D has output bundle o[3]; E instantiates D and reads inv.o[0, 2).
    let mut syms = Symbols::new();
    let d = name(&mut syms, "D");
    let e = name(&mut syms, "E");
    let b = bundle(&mut syms, "o", Expr::Concrete(3), 1);
    let o = b.name;
    let x = name(&mut syms, "x");
    let inv = name(&mut syms, "inv");
    let inv2 = name(&mut syms, "inv2");
    let callee = Component {
        sig: Signature { name: d, inputs: vec![], outputs: vec![PortDef::Bundle(b)] },
        body: vec![],
    };
    let caller = Component {
        sig: Signature { name: e, inputs: vec![], outputs: vec![] },
        body: vec![
            Command::Instance(Instance { name: x, component: d }),
            Command::Invoke(Invoke { name: inv, instance: x, ports: Some(vec![]) }),
            Command::ForLoop(ForLoop {
                idx: name(&mut syms, "k"),
                start: Expr::Concrete(0),
                end: Expr::Concrete(1),
                body: vec![Command::Invoke(Invoke {
                    name: inv2,
                    instance: x,
                    ports: Some(vec![Port::InvBundle { invoke: inv, port: o, access: range(0, 2) }]),
                })],
            }),
        ],
    };
    let ns = BundleElim::transform(Namespace { components: vec![callee, caller], symbols: syms })
        .unwrap();
    let o0 = name_at(&ns.symbols, "o_0");
    let o1 = name_at(&ns.symbols, "o_1");
    let out = &ns.components[1];
    let inner = match &out.body[2] {
        Command::ForLoop(f) => &f.body[0],
        other => panic!("unexpected {:?}", other),
    };
    match inner {
        Command::Invoke(i) => assert_eq!(
            i.ports.as_ref().unwrap(),
            &vec![Port::InvPort { invoke: inv, name: o0 }, Port::InvPort { invoke: inv, name: o1 }]
        ),
        other => panic!("unexpected {:?}", other),
    }
}

#[test]
fn unknown_invocation_is_refused() {
    let mut syms = Symbols::new();
    let e = name(&mut syms, "E");
    let inv = name(&mut syms, "inv");
    let o = name(&mut syms, "o");
    let caller = Component {
        sig: Signature { name: e, inputs: vec![], outputs: vec![] },
        body: vec![Command::If(If {
            cond: Expr::Concrete(1),
            on_true: vec![],
            on_false: vec![Command::Invoke(Invoke {
                name: name(&mut syms, "inv2"),
                instance: name(&mut syms, "x"),
                ports: Some(vec![Port::InvBundle { invoke: inv, port: o, access: range(0, 1) }]),
            })],
        })],
    };
    let r = BundleElim::transform(Namespace { components: vec![caller], symbols: syms });
    assert_eq!(r.unwrap_err(), ElimError::MissingInstance { invoke: inv });
}

#[test]
fn unknown_instance_is_refused() {
    let mut pass = BundleElim::new();
    let cur = Id { sym: 0 };
    let inv = Id { sym: 1 };
    let inst = Id { sym: 2 };
    pass.inv_map.push((inv, inst));
    assert_eq!(pass.sig_from_invoke(inv), Err(ElimError::MissingComponent { instance: inst }));
    pass.inst_map.push((inst, cur));
    assert_eq!(pass.sig_from_invoke(inv), Ok(cur));
}

#[test]
fn splat_into_connection_is_refused() {
    let mut pass = BundleElim::new();
    let cur = Id { sym: 0 };
    let inv = Id { sym: 1 };
    let o = Id { sym: 2 };
    let con = Command::Connect(Connect {
        dst: Port::InvBundle { invoke: inv, port: o, access: range(0, 2) },
        src: Port::Constant(1),
    });
    assert_eq!(pass.command(cur, con), Err(ElimError::SplatInConnect { invoke: inv, port: o }));
    let single = Command::Connect(Connect {
        dst: Port::InvBundle { invoke: inv, port: o, access: Access::Index(Expr::Concrete(0)) },
        src: Port::Constant(1),
    });
    assert!(pass.command(cur, single).is_ok());
}

#[test]
fn splat_uses_the_recorded_ports() {
    let mut pass = BundleElim::new();
    let comp = Id { sym: 0 };
    let b = Id { sym: 1 };
    let ports: Vec<Id> = (10..14).map(|s| Id { sym: s }).collect();
    pass.sig_bundle_map.push(SigBundle { comp, bundle: b, ports: ports.clone() });
    let got = pass
        .bundle_splat_ports(comp, b, &Expr::Concrete(1), &Expr::Concrete(3))
        .unwrap();
    assert_eq!(got, ports[1..3].to_vec());
    let all = pass.bundle_splat_ports(comp, b, &Expr::Concrete(0), &Expr::Concrete(4)).unwrap();
    assert_eq!(all, ports);
    let none = pass.bundle_splat_ports(comp, b, &Expr::Concrete(2), &Expr::Concrete(2)).unwrap();
    assert!(none.is_empty());
    assert_eq!(
        pass.bundle_splat_ports(comp, b, &Expr::Concrete(2), &Expr::Concrete(5)),
        Err(ElimError::RangeOutOfBounds { bundle: b, end: 5 })
    );
    assert_eq!(
        pass.bundle_splat_ports(comp, b, &Expr::Abstract(b), &Expr::Concrete(2)),
        Err(ElimError::NonConstantRange { bundle: b })
    );
    let other = Id { sym: 7 };
    assert_eq!(
        pass.bundle_splat_ports(comp, other, &Expr::Concrete(0), &Expr::Concrete(1)),
        Err(ElimError::MissingBundle { comp, bundle: other })
    );
}

#[test]
fn local_range_needs_literal_bounds() {
    let pass = BundleElim::new();
    let cur = Id { sym: 0 };
    let q = Id { sym: 1 };
    let n = Id { sym: 2 };
    let p = Port::Bundle {
        name: q,
        access: Access::Range { start: Expr::Concrete(0), end: Expr::Abstract(n) },
    };
    assert_eq!(pass.port(cur, p), Err(ElimError::NonConstantRange { bundle: q }));
}

#[test]
fn instances_and_invocations_are_recorded() {
    let mut pass = BundleElim::new();
    let cur = Id { sym: 0 };
    let x = Id { sym: 1 };
    let d = Id { sym: 2 };
    let inv = Id { sym: 3 };
    let cmds = vec![
        Command::Instance(Instance { name: x, component: d }),
        Command::Invoke(Invoke { name: inv, instance: x, ports: None }),
    ];
    let out = pass.commands(cur, cmds).unwrap();
    assert_eq!(out.len(), 2);
    assert_eq!(pass.inst_map, vec![(x, d)]);
    assert_eq!(pass.inv_map, vec![(inv, x)]);
    assert_eq!(pass.sig_from_invoke(inv), Ok(d));
}

#[test]
fn resolve_binds_and_folds() {
    let mut syms = Symbols::new();
    let i = name(&mut syms, "i");
    let j = name(&mut syms, "j");
    let bind = Binding::new(vec![(i, Expr::Concrete(3))]);
    assert_eq!(add(Expr::Abstract(i), Expr::Concrete(2)).resolve(&bind), Expr::Concrete(5));
    assert_eq!(
        add(Expr::Abstract(j), Expr::Concrete(2)).resolve(&bind),
        add(Expr::Abstract(j), Expr::Concrete(2))
    );
    let under = Expr::Op {
        op: Op::Sub,
        left: Box::new(Expr::Concrete(1)),
        right: Box::new(Expr::Abstract(i)),
    };
    assert_eq!(
        under.resolve(&bind),
        Expr::Op { op: Op::Sub, left: Box::new(Expr::Concrete(1)), right: Box::new(Expr::Concrete(3)) }
    );
    let mul = Expr::Op { op: Op::Mul, left: Box::new(Expr::Abstract(i)), right: Box::new(Expr::Concrete(4)) };
    assert_eq!(mul.resolve(&bind), Expr::Concrete(12));
}

#[test]
fn interning_is_idempotent() {
    let mut syms = Symbols::new();
    let a = name(&mut syms, "a");
    let b = name(&mut syms, "b");
    assert_ne!(a, b);
    assert_eq!(name(&mut syms, "a"), a);
    assert_eq!(syms.name(b), "b");
}

#[test]
fn compile_sig_port_names_and_wires() {
    let mut syms = Symbols::new();
    let b = bundle(&mut syms, "data", Expr::Concrete(2), 1);
    let data = b.name;
    let mut pre = vec![];
    let mut post = vec![];
    let (ports, dir) =
        BundleElim::compile_sig_port(b, true, &mut pre, &mut post, &mut syms).unwrap();
    assert!(dir);
    assert_eq!(ports.len(), 2);
    assert!(post.is_empty());
    assert_eq!(pre.len(), 3);
    let names: Vec<String> = ports
        .iter()
        .map(|d| match d {
            PortDef::Port { name, .. } => text(&syms, *name),
            PortDef::Bundle(_) => unreachable!(),
        })
        .collect();
    assert_eq!(names, vec!["data_0".to_string(), "data_1".to_string()]);
    assert!(matches!(&pre[0], Command::Bundle(b) if b.name == data));
}

#[test]
fn caller_before_callee_is_lowered() {
    // E reads inv.o[0, 2) of D, and E comes first in the program.
    let mut syms = Symbols::new();
    let d = name(&mut syms, "D");
    let e = name(&mut syms, "E");
    let b = bundle(&mut syms, "o", Expr::Concrete(3), 1);
    let o = b.name;
    let x = name(&mut syms, "x");
    let inv = name(&mut syms, "inv");
    let inv2 = name(&mut syms, "inv2");
    let callee = Component {
        sig: Signature { name: d, inputs: vec![], outputs: vec![PortDef::Bundle(b)] },
        body: vec![],
    };
    let caller = Component {
        sig: Signature { name: e, inputs: vec![], outputs: vec![] },
        body: vec![
            Command::Instance(Instance { name: x, component: d }),
            Command::Invoke(Invoke { name: inv, instance: x, ports: Some(vec![]) }),
            Command::Invoke(Invoke {
                name: inv2,
                instance: x,
                ports: Some(vec![Port::InvBundle { invoke: inv, port: o, access: range(0, 2) }]),
            }),
        ],
    };
    let ns = BundleElim::transform(Namespace { components: vec![caller, callee], symbols: syms })
        .unwrap();
    let o0 = name_at(&ns.symbols, "o_0");
    let o1 = name_at(&ns.symbols, "o_1");
    match &ns.components[0].body[2] {
        Command::Invoke(i) => assert_eq!(
            i.ports.as_ref().unwrap(),
            &vec![Port::InvPort { invoke: inv, name: o0 }, Port::InvPort { invoke: inv, name: o1 }]
        ),
        other => panic!("unexpected {:?}", other),
    }
    assert_eq!(ns.components[1].sig.outputs.len(), 3);
}

#[test]
fn sig_returns_declarations_and_wiring() {
    let mut syms = Symbols::new();
    let c = name(&mut syms, "C");
    let bi = bundle(&mut syms, "a", Expr::Concrete(2), 1);
    let bo = bundle(&mut syms, "z", Expr::Concrete(1), 1);
    let (a, z) = (bi.name, bo.name);
    let mut pass = BundleElim::new();
    let sig = Signature { name: c, inputs: vec![PortDef::Bundle(bi)], outputs: vec![PortDef::Bundle(bo)] };
    let (s2, pre, post) = pass.sig(sig, &mut syms).unwrap();
    assert_eq!(s2.inputs.len(), 2);
    assert_eq!(s2.outputs.len(), 1);
    let a0 = name_at(&syms, "a_0");
    let a1 = name_at(&syms, "a_1");
    let z0 = name_at(&syms, "z_0");
    assert_eq!(pre.len(), 1 + 2 + 1);
    assert!(matches!(&pre[0], Command::Bundle(b) if b.name == a));
    assert_eq!(pre[1], Command::Connect(Connect { dst: elem(a, 0), src: Port::This(a0) }));
    assert_eq!(pre[2], Command::Connect(Connect { dst: elem(a, 1), src: Port::This(a1) }));
    assert!(matches!(&pre[3], Command::Bundle(b) if b.name == z));
    assert_eq!(post, vec![Command::Connect(Connect { dst: Port::This(z0), src: elem(z, 0) })]);
    assert_eq!(pass.sig_bundle_map.len(), 2);
    assert_eq!(pass.sig_bundle_map[0].ports, vec![a0, a1]);
    assert_eq!(pass.sig_bundle_map[1].ports, vec![z0]);
}
