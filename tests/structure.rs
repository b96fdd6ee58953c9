use filament::ir::{Component, EventIdx, Expr, ExprIdx, Foreign, CompIdx, InfoIdx, InvIdx, Op, ParamIdx, PortIdx, Time};
use filament::structure::{
    Access, Direction, Event, Liveness, Param, ParamOwner, Port, PortOwner, Range, TimeSub,
};

const INFO: InfoIdx = InfoIdx { idx: 0 };

/// The value of an expression when the parameter `p` stands for `v`.
fn value(c: &Component, e: ExprIdx, p: ParamIdx, v: i64) -> i64 {
    match c.exprs[e.idx] {
        Expr::Concrete(n) => n as i64,
        Expr::Param(q) => {
            assert_eq!(q, p);
            v
        }
        Expr::Bin { op, lhs, rhs } => {
            let l = value(c, lhs, p, v);
            let r = value(c, rhs, p, v);
            match op {
                Op::Add => l + r,
                Op::Sub => l - r,
                Op::Mul => l * r,
                Op::Div => l / r,
                Op::Mod => l % r,
            }
        }
    }
}

fn time_offset(c: &Component, t: filament::ir::TimeIdx, p: ParamIdx, v: i64) -> i64 {
    value(c, c.times[t.idx].offset, p, v)
}

/// A component with one bundle `p[len]: for<i> @[G + i, G + i + width]`.
fn bundle_component(len: u64, width: u64) -> (Component, PortIdx, ParamIdx, EventIdx) {
    let mut c = Component::new();
    let zero = c.add_expr(Expr::Concrete(0));
    let g = c.add_event(Event { delay: TimeSub::Unit(zero), info: INFO, has_interface: true });
    let i = c.add_param(Param::new(ParamOwner::bundle(PortIdx { idx: 0 }), INFO));
    let ie = i.expr(&mut c);
    let w = c.add_expr(Expr::Concrete(width));
    let end_off = ie.add(w, &mut c);
    let start = c.add_time(Time { event: g, offset: ie });
    let end = c.add_time(Time { event: g, offset: end_off });
    let len_e = c.add_expr(Expr::Concrete(len));
    let width_e = c.add_expr(Expr::Concrete(32));
    let port = c.add_port(Port {
        owner: PortOwner::sig_out(),
        width: width_e,
        live: Liveness { idxs: vec![i], lens: vec![len_e], range: Range { start, end } },
        info: INFO,
    });
    (c, port, i, g)
}

#[test]
fn unit_range_add_branch() {
    let mut c = Component::new();
    let p = c.add_param(Param::new(ParamOwner::Sig, INFO));
    let s = p.expr(&mut c);
    let one = c.add_expr(Expr::Concrete(1));
    let e1 = c.add_expr(Expr::Bin { op: Op::Add, lhs: s, rhs: one });
    let e2 = c.add_expr(Expr::Bin { op: Op::Add, lhs: one, rhs: s });
    assert!(Access::unit_range(s, e1, &c));
    assert!(Access::unit_range(s, e2, &c));
    let two = c.add_expr(Expr::Concrete(2));
    let e3 = c.add_expr(Expr::Bin { op: Op::Add, lhs: s, rhs: two });
    assert!(!Access::unit_range(s, e3, &c));
}

#[test]
fn unit_range_concrete_branch() {
    let mut c = Component::new();
    let three = c.add_expr(Expr::Concrete(3));
    let four = c.add_expr(Expr::Concrete(4));
    let five = c.add_expr(Expr::Concrete(5));
    assert!(Access::unit_range(three, four, &c));
    assert!(!Access::unit_range(three, five, &c));
    assert!(!Access::unit_range(four, three, &c));
}

#[test]
fn unit_range_unrelated_end() {
    let mut c = Component::new();
    let p = c.add_param(Param::new(ParamOwner::Sig, INFO));
    let q = c.add_param(Param::new(ParamOwner::Sig, INFO));
    let s = p.expr(&mut c);
    let t = q.expr(&mut c);
    let one = c.add_expr(Expr::Concrete(1));
    let e = c.add_expr(Expr::Bin { op: Op::Add, lhs: t, rhs: one });
    assert!(!Access::unit_range(s, e, &c));
    assert!(!Access::unit_range(s, t, &c));
    let sub = c.add_expr(Expr::Bin { op: Op::Sub, lhs: s, rhs: one });
    assert!(!Access::unit_range(s, sub, &c));
}

#[test]
fn whole_port_access_is_unit() {
    let (mut c, port, _, _) = bundle_component(1, 1);
    let a = Access::port(port, &mut c);
    assert_eq!(a.ranges.len(), 1);
    assert_eq!(c.exprs[a.ranges[0].0.idx], Expr::Concrete(0));
    assert_eq!(c.exprs[a.ranges[0].1.idx], Expr::Concrete(1));
    assert!(a.is_port(&c));
}

#[test]
fn interning_reuses_nodes() {
    let mut c = Component::new();
    let a = c.add_expr(Expr::Concrete(7));
    let b = c.add_expr(Expr::Concrete(7));
    assert_eq!(a, b);
    assert_eq!(c.find_expr(&Expr::Concrete(1)), Some(ExprIdx { idx: 1 }));
    assert_eq!(c.find_expr(&Expr::Concrete(9)), None);
}

#[test]
fn literal_arithmetic_folds() {
    let mut c = Component::new();
    let three = c.add_expr(Expr::Concrete(3));
    let one = c.add_expr(Expr::Concrete(1));
    let d = three.sub(one, &mut c);
    assert_eq!(c.exprs[d.idx], Expr::Concrete(2));
    let s = three.add(one, &mut c);
    assert_eq!(c.exprs[s.idx], Expr::Concrete(4));
    let neg = one.sub(three, &mut c);
    assert_eq!(c.exprs[neg.idx], Expr::Bin { op: Op::Sub, lhs: one, rhs: three });
}

#[test]
fn unit_access_fixes_the_index() {
    // p[4]: for<i> @[G+i, G+i+10]; p[k, k+1) lives in [k, k+10].
    let (mut c, port, i, _) = bundle_component(4, 10);
    for k in 0..4u64 {
        let s = c.add_expr(Expr::Concrete(k));
        let e = c.add_expr(Expr::Concrete(k + 1));
        let acc = Access { port, ranges: vec![(s, e)] };
        assert!(acc.is_port(&c));
        let l = acc.bundle_typ(&mut c);
        assert_eq!(l.idxs, vec![i]);
        assert_eq!(c.exprs[l.lens[0].idx], Expr::Concrete(1));
        for v in [0i64, 5, 17] {
            assert_eq!(time_offset(&c, l.range.start, i, v), k as i64);
            assert_eq!(time_offset(&c, l.range.end, i, v), k as i64 + 10);
        }
    }
}

#[test]
fn range_access_shifts_the_index() {
    // p[a, b) has length b - a and its element j is p's element a + j.
    let (mut c, port, i, _) = bundle_component(8, 10);
    let a = c.add_expr(Expr::Concrete(2));
    let b = c.add_expr(Expr::Concrete(6));
    let acc = Access { port, ranges: vec![(a, b)] };
    assert!(!acc.is_port(&c));
    let l = acc.bundle_typ(&mut c);
    assert_eq!(c.exprs[l.lens[0].idx], Expr::Concrete(4));
    for j in 0..4i64 {
        assert_eq!(time_offset(&c, l.range.start, i, j), 2 + j);
        assert_eq!(time_offset(&c, l.range.end, i, j), 2 + j + 10);
    }
}

#[test]
fn slice_of_two_wide_bundle() {
    // p[4]: for<i> @[i, i+2]; p[1, 3) has lens [2] and its first element lives in [1, 3].
    let (mut c, port, i, _) = bundle_component(4, 2);
    let one = c.add_expr(Expr::Concrete(1));
    let three = c.add_expr(Expr::Concrete(3));
    let acc = Access { port, ranges: vec![(one, three)] };
    let l = acc.bundle_typ(&mut c);
    assert_eq!(l.lens.len(), 1);
    assert_eq!(c.exprs[l.lens[0].idx], Expr::Concrete(2));
    assert_eq!(time_offset(&c, l.range.start, i, 0), 1);
    assert_eq!(time_offset(&c, l.range.end, i, 0), 3);
    // The unit slice p[1, 2) is exactly [1, 3].
    let two = c.add_expr(Expr::Concrete(2));
    let unit = Access { port, ranges: vec![(one, two)] };
    let u = unit.bundle_typ(&mut c);
    assert_eq!(c.exprs[c.times[u.range.start.idx].offset.idx], Expr::Concrete(1));
    assert_eq!(time_offset(&c, u.range.end, i, 99), 3);
}

#[test]
fn every_owner_has_exactly_one_direction_predicate() {
    let base = Foreign { key: PortIdx { idx: 0 }, owner: CompIdx { idx: 0 } };
    let inv = InvIdx { idx: 0 };
    let owners = [
        PortOwner::sig_in(),
        PortOwner::sig_out(),
        PortOwner::inv_in(inv, base),
        PortOwner::inv_out(inv, base),
        PortOwner::Local,
    ];
    for owner in owners {
        let p = Port {
            owner,
            width: ExprIdx { idx: 0 },
            live: Liveness { idxs: vec![], lens: vec![], range: Range {
                start: filament::ir::TimeIdx { idx: 0 },
                end: filament::ir::TimeIdx { idx: 0 },
            } },
            info: INFO,
        };
        let flags = [p.is_sig_in(), p.is_sig_out(), p.is_inv_in(), p.is_inv_out(), p.is_local()];
        assert_eq!(flags.iter().filter(|f| **f).count(), 1);
        assert_eq!(p.is_sig(), p.is_sig_in() || p.is_sig_out());
        assert_eq!(p.is_inv(), p.is_inv_in() || p.is_inv_out());
    }
    // Signature directions are stored reversed.
    let sig_in = Port {
        owner: PortOwner::Sig { dir: Direction::Out },
        width: ExprIdx { idx: 0 },
        live: Liveness { idxs: vec![], lens: vec![], range: Range {
            start: filament::ir::TimeIdx { idx: 0 },
            end: filament::ir::TimeIdx { idx: 0 },
        } },
        info: INFO,
    };
    assert!(sig_in.is_sig_in());
    assert!(PortOwner::inv_in(inv, base).is_inv_in());
    assert!(!PortOwner::inv_out(inv, base).is_inv_in());
}

#[test]
fn directions() {
    assert!(Direction::In.is_in());
    assert!(!Direction::In.is_out());
    assert!(Direction::Out.is_out());
    assert_eq!(Direction::In.reverse(), Direction::Out);
    assert_eq!(Direction::Out.reverse(), Direction::In);
}

#[test]
fn param_owners() {
    let p = Param::new(ParamOwner::Sig, INFO);
    assert!(p.is_sig_owned());
    assert!(!p.is_local());
    let l = Param::new(ParamOwner::Loop, INFO);
    assert!(l.is_local());
    assert!(!l.is_sig_owned());
    let e = Param::new(ParamOwner::Exists { opaque: true }, INFO);
    assert!(!e.is_local() && !e.is_sig_owned());
    assert_eq!(ParamOwner::bundle(PortIdx { idx: 3 }), ParamOwner::Bundle(PortIdx { idx: 3 }));
}

#[test]
fn param_expression_is_interned() {
    let mut c = Component::new();
    let p = c.add_param(Param::new(ParamOwner::Sig, INFO));
    let a = p.expr(&mut c);
    let b = p.expr(&mut c);
    assert_eq!(a, b);
    assert_eq!(c.exprs[a.idx], Expr::Param(p));
}

fn value_in(c: &Component, e: ExprIdx, env: &dyn Fn(ParamIdx) -> i64) -> i64 {
    match c.exprs[e.idx] {
        Expr::Concrete(n) => n as i64,
        Expr::Param(q) => env(q),
        Expr::Bin { op, lhs, rhs } => {
            let l = value_in(c, lhs, env);
            let r = value_in(c, rhs, env);
            match op {
                Op::Add => l + r,
                Op::Sub => l - r,
                Op::Mul => l * r,
                Op::Div => l / r,
                Op::Mod => l % r,
            }
        }
    }
}

#[test]
fn two_dimensional_slice() {
    // p[2][3]: for<i, j> @[G + i + j, G + i + j + 1]; p[1, 2)[1, 3).
    let mut c = Component::new();
    let zero = c.add_expr(Expr::Concrete(0));
    let g = c.add_event(Event { delay: TimeSub::Unit(zero), info: INFO, has_interface: false });
    let i = c.add_param(Param::new(ParamOwner::bundle(PortIdx { idx: 0 }), INFO));
    let j = c.add_param(Param::new(ParamOwner::bundle(PortIdx { idx: 0 }), INFO));
    let ie = i.expr(&mut c);
    let je = j.expr(&mut c);
    let ij = ie.add(je, &mut c);
    let one = c.add_expr(Expr::Concrete(1));
    let ij1 = ij.add(one, &mut c);
    let start = c.add_time(Time { event: g, offset: ij });
    let end = c.add_time(Time { event: g, offset: ij1 });
    let two = c.add_expr(Expr::Concrete(2));
    let three = c.add_expr(Expr::Concrete(3));
    let port = c.add_port(Port {
        owner: PortOwner::Local,
        width: one,
        live: Liveness { idxs: vec![i, j], lens: vec![two, three], range: Range { start, end } },
        info: INFO,
    });
    let acc = Access { port, ranges: vec![(one, two), (one, three)] };
    assert!(!acc.is_port(&c));
    let l = acc.bundle_typ(&mut c);
    assert_eq!(c.exprs[l.lens[0].idx], Expr::Concrete(1));
    assert_eq!(c.exprs[l.lens[1].idx], Expr::Concrete(2));
    for jv in 0..2i64 {
        let env = move |q: ParamIdx| if q == j { jv } else { 100 };
        let s = value_in(&c, c.times[l.range.start.idx].offset, &env);
        let e = value_in(&c, c.times[l.range.end.idx].offset, &env);
        // Element (0, jv) of the slice is element (1, 1 + jv) of p.
        assert_eq!(s, 1 + 1 + jv);
        assert_eq!(e, 1 + 1 + jv + 1);
    }
}

#[test]
fn slice_lengths_are_subtraction_nodes() {
    let (mut c, port, i, _) = bundle_component(8, 1);
    let ie = i.expr(&mut c);
    let three = c.add_expr(Expr::Concrete(3));
    let end = ie.add(three, &mut c);
    let acc = Access { port, ranges: vec![(ie, end)] };
    let l = acc.bundle_typ(&mut c);
    assert_eq!(c.exprs[l.lens[0].idx], Expr::Bin { op: Op::Sub, lhs: end, rhs: ie });
}

#[test]
fn diagnostic_texts() {
    assert_eq!(ParamOwner::Sig.text(), "sig");
    assert_eq!(ParamOwner::Exists { opaque: true }.text(), "opaque");
    assert_eq!(ParamOwner::Exists { opaque: false }.text(), "some");
    assert_eq!(ParamOwner::Loop.text(), "loop");
    assert_eq!(ParamOwner::Bundle(PortIdx { idx: 42 }).text(), "42");
    assert_eq!(Direction::In.text(), "in");
    assert_eq!(Direction::Out.text(), "out");
}
