use calyx::ir::{
    Assignment, Cell, CellType, CmpOp, Component, Control, Guard, Hole, PortName, PortRef,
};
use calyx::static_timing::{Action, PassError, StaticTiming, FSM_WIDTH};

/// Evaluates a guard with the counter at `fsm_val`, the latched condition at
/// `stored_val`, and every constant cell at its value.
fn eval(comp: &Component, g: &Guard, fsm: usize, fsm_val: u64, stored: Option<usize>, stored_val: u64) -> bool {
    let val = |p: &PortRef| -> u64 {
        match p {
            PortRef::Cell { cell, port: PortName::Out } => {
                if *cell == fsm {
                    fsm_val
                } else if Some(*cell) == stored {
                    stored_val
                } else {
                    match &comp.cells[*cell].prototype {
                        CellType::Constant { value, .. } => *value,
                        other => panic!("unexpected cell {:?}", other),
                    }
                }
            }
            other => panic!("unexpected port {:?}", other),
        }
    };
    match g {
        Guard::True => true,
        Guard::Port { port } => val(port) != 0,
        Guard::Cmp { op, left, right } => {
            let (a, b) = (val(left), val(right));
            match op {
                CmpOp::Eq => a == b,
                CmpOp::Neq => a != b,
                CmpOp::Lt => a < b,
                CmpOp::Le => a <= b,
                CmpOp::Gt => a > b,
                CmpOp::Ge => a >= b,
            }
        }
        Guard::And { left, right } => {
            eval(comp, left, fsm, fsm_val, stored, stored_val) && eval(comp, right, fsm, fsm_val, stored, stored_val)
        }
        Guard::Or { left, right } => {
            eval(comp, left, fsm, fsm_val, stored, stored_val) || eval(comp, right, fsm, fsm_val, stored, stored_val)
        }
        Guard::Not { inner } => !eval(comp, inner, fsm, fsm_val, stored, stored_val),
    }
}

fn static_group(comp: &mut Component, name: &str, t: u64) -> usize {
    comp.add_group(name, Some(t), Vec::new())
}

fn enable(g: usize) -> Control {
    Control::Enable { group: g }
}

fn enabled_group(a: Action) -> usize {
    match a {
        Action::Change { control: Control::Enable { group } } => group,
        other => panic!("expected a change, got {:?}", other),
    }
}

/// The assignment of `group` that drives the go hole of `target`.
fn go_assign<'a>(comp: &'a Component, group: usize, target: usize) -> &'a Assignment {
    comp.groups[group]
        .assignments
        .iter()
        .find(|a| a.dst == PortRef::Hole { group: target, hole: Hole::Go })
        .expect("go assignment")
}

fn done_assign<'a>(comp: &'a Component, group: usize) -> &'a Assignment {
    comp.groups[group]
        .assignments
        .iter()
        .find(|a| a.dst == PortRef::Hole { group, hole: Hole::Done })
        .expect("done assignment")
}

fn fsm_of(comp: &Component, group: usize) -> usize {
    match &done_assign(comp, group).guard {
        Guard::Cmp { left: PortRef::Cell { cell, .. }, .. } => *cell,
        other => panic!("unexpected done guard {:?}", other),
    }
}

fn go_cycles(comp: &Component, group: usize, target: usize, upto: u64, stored: Option<usize>, stored_val: u64) -> Vec<u64> {
    let fsm = fsm_of(comp, group);
    let a = go_assign(comp, group, target);
    (0..upto).filter(|v| eval(comp, &a.guard, fsm, *v, stored, stored_val)).collect()
}

fn done_cycles(comp: &Component, group: usize, upto: u64) -> Vec<u64> {
    let fsm = fsm_of(comp, group);
    let a = done_assign(comp, group);
    (0..upto).filter(|v| eval(comp, &a.guard, fsm, *v, None, 0)).collect()
}

fn has_reset(comp: &Component, fsm: usize, last: u64) -> bool {
    let resets_in = comp.continuous_assignments.iter().any(|a| {
        a.dst == PortRef::Cell { cell: fsm, port: PortName::In }
            && matches!(&a.src, PortRef::Cell { cell, .. } if comp.cells[*cell].prototype == CellType::Constant { value: 0, bits: FSM_WIDTH })
            && (0..last + 3).all(|v| eval(comp, &a.guard, fsm, v, None, 0) == (v == last))
    });
    let resets_en = comp.continuous_assignments.iter().any(|a| {
        a.dst == PortRef::Cell { cell: fsm, port: PortName::WriteEn }
            && (0..last + 3).all(|v| eval(comp, &a.guard, fsm, v, None, 0) == (v == last))
    });
    resets_in && resets_en
}

#[test]
fn pass_name_and_description() {
    assert_eq!(StaticTiming::name(), "static-timing");
    assert!(!StaticTiming::description().is_empty());
}

#[test]
fn pure_seq() {
    let mut comp = Component::new("main".to_string());
    let a = static_group(&mut comp, "A", 3);
    let b = static_group(&mut comp, "B", 5);
    let mut pass = StaticTiming::default();
    let g = enabled_group(pass.finish_seq(&vec![enable(a), enable(b)], &mut comp));
    assert_eq!(comp.groups[g].static_time, Some(8));
    assert_eq!(comp.groups[g].name, "static_seq0");
    assert_eq!(go_cycles(&comp, g, a, 12, None, 0), vec![0, 1, 2, 3]);
    assert_eq!(go_cycles(&comp, g, b, 12, None, 0), vec![3, 4, 5, 6, 7]);
    assert_eq!(done_cycles(&comp, g, 12), vec![8]);
    let fsm = fsm_of(&comp, g);
    assert_eq!(comp.cells[fsm].prototype, CellType::Reg { width: FSM_WIDTH });
    assert!(has_reset(&comp, fsm, 8));
}

#[test]
fn seq_single_cycle_groups() {
    let mut comp = Component::new("main".to_string());
    let a = static_group(&mut comp, "A", 1);
    let b = static_group(&mut comp, "B", 1);
    let mut pass = StaticTiming::default();
    let g = enabled_group(pass.finish_seq(&vec![enable(a), enable(b)], &mut comp));
    assert_eq!(comp.groups[g].static_time, Some(2));
    assert!(matches!(go_assign(&comp, g, a).guard, Guard::Cmp { op: CmpOp::Eq, .. }));
    assert!(matches!(go_assign(&comp, g, b).guard, Guard::Cmp { op: CmpOp::Eq, .. }));
    assert_eq!(go_cycles(&comp, g, a, 5, None, 0), vec![0]);
    assert_eq!(go_cycles(&comp, g, b, 5, None, 0), vec![1]);
    assert_eq!(done_cycles(&comp, g, 5), vec![2]);
}

#[test]
fn seq_three_children_windows() {
    let mut comp = Component::new("main".to_string());
    let a = static_group(&mut comp, "A", 2);
    let b = static_group(&mut comp, "B", 1);
    let c = static_group(&mut comp, "C", 4);
    let mut pass = StaticTiming::default();
    let g = enabled_group(pass.finish_seq(&vec![enable(a), enable(b), enable(c)], &mut comp));
    assert_eq!(comp.groups[g].static_time, Some(7));
    assert_eq!(go_cycles(&comp, g, a, 10, None, 0), vec![0, 1, 2]);
    assert_eq!(go_cycles(&comp, g, b, 10, None, 0), vec![2]);
    assert_eq!(go_cycles(&comp, g, c, 10, None, 0), vec![3, 4, 5, 6]);
}

#[test]
fn pure_par() {
    let mut comp = Component::new("main".to_string());
    let a = static_group(&mut comp, "A", 2);
    let b = static_group(&mut comp, "B", 7);
    let c = static_group(&mut comp, "C", 4);
    let mut pass = StaticTiming::default();
    let g = enabled_group(pass.finish_par(&vec![enable(a), enable(b), enable(c)], &mut comp));
    assert_eq!(comp.groups[g].static_time, Some(7));
    assert_eq!(comp.groups[g].name, "static_par0");
    assert_eq!(go_cycles(&comp, g, a, 10, None, 0), vec![0, 1, 2]);
    assert_eq!(go_cycles(&comp, g, b, 10, None, 0), vec![0, 1, 2, 3, 4, 5, 6, 7]);
    assert_eq!(go_cycles(&comp, g, c, 10, None, 0), vec![0, 1, 2, 3, 4]);
    assert_eq!(done_cycles(&comp, g, 10), vec![7]);
    assert!(has_reset(&comp, fsm_of(&comp, g), 7));
}

fn if_setup(c: u64, t: u64, f: u64) -> (Component, usize, usize, usize, usize, PortRef) {
    let mut comp = Component::new("main".to_string());
    let lt = comp.add_cell("lt", CellType::Instance { component: "std_lt".to_string() });
    let cond = static_group(&mut comp, "C", c);
    let tg = static_group(&mut comp, "T", t);
    let fg = static_group(&mut comp, "F", f);
    let port = PortRef::Cell { cell: lt, port: PortName::Out };
    let mut pass = StaticTiming::default();
    let g = enabled_group(pass.finish_if(&port, cond, &enable(tg), &enable(fg), &mut comp));
    (comp, g, cond, tg, fg, port)
}

fn stored_of(comp: &Component, g: usize) -> usize {
    comp.groups[g]
        .assignments
        .iter()
        .find_map(|a| match a.dst {
            PortRef::Cell { cell, port: PortName::WriteEn } if comp.cells[cell].prototype == (CellType::Reg { width: 1 }) => Some(cell),
            _ => None,
        })
        .expect("latch register")
}

#[test]
fn combinational_if() {
    let (comp, g, cond, tg, fg, port) = if_setup(0, 3, 5);
    assert_eq!(comp.groups[g].static_time, Some(6));
    assert_eq!(comp.groups[g].name, "static_if0");
    let stored = stored_of(&comp, g);
    assert_eq!(go_cycles(&comp, g, cond, 10, Some(stored), 1), vec![0]);
    assert_eq!(go_cycles(&comp, g, tg, 10, Some(stored), 1), vec![1, 2, 3]);
    assert_eq!(go_cycles(&comp, g, tg, 10, Some(stored), 0), Vec::<u64>::new());
    assert_eq!(go_cycles(&comp, g, fg, 10, Some(stored), 0), vec![1, 2, 3, 4, 5]);
    assert_eq!(go_cycles(&comp, g, fg, 10, Some(stored), 1), Vec::<u64>::new());
    let latch = comp.groups[g]
        .assignments
        .iter()
        .find(|a| a.dst == PortRef::Cell { cell: stored, port: PortName::In })
        .expect("latch");
    assert_eq!(latch.src, port);
    let fsm = fsm_of(&comp, g);
    let latched: Vec<u64> = (0..10).filter(|v| eval(&comp, &latch.guard, fsm, *v, None, 0)).collect();
    assert_eq!(latched, vec![0]);
    assert_eq!(done_cycles(&comp, g, 10), vec![6]);
    assert!(has_reset(&comp, fsm, 6));
}

#[test]
fn timed_if() {
    let (comp, g, cond, tg, fg, _) = if_setup(2, 3, 4);
    assert_eq!(comp.groups[g].static_time, Some(7));
    let stored = stored_of(&comp, g);
    assert_eq!(go_cycles(&comp, g, cond, 10, Some(stored), 0), vec![0, 1]);
    assert_eq!(go_cycles(&comp, g, tg, 10, Some(stored), 1), vec![3, 4, 5]);
    assert_eq!(go_cycles(&comp, g, fg, 10, Some(stored), 0), vec![3, 4, 5, 6]);
    assert_eq!(done_cycles(&comp, g, 10), vec![7]);
}

#[test]
fn if_branches_never_overlap() {
    let (comp, g, _, tg, fg, _) = if_setup(1, 4, 4);
    assert_eq!(comp.groups[g].static_time, Some(6));
    let stored = stored_of(&comp, g);
    for s in 0..2 {
        let t = go_cycles(&comp, g, tg, 12, Some(stored), s);
        let f = go_cycles(&comp, g, fg, 12, Some(stored), s);
        assert!(t.iter().all(|v| !f.contains(v)));
        assert!(t.iter().chain(f.iter()).all(|v| *v > 1 && *v < 6));
    }
}

#[test]
fn non_static_child_is_left_alone() {
    let mut comp = Component::new("main".to_string());
    let a = static_group(&mut comp, "A", 3);
    let b = comp.add_group("B", None, Vec::new());
    let mut pass = StaticTiming::default();
    let stmts = vec![enable(a), enable(b)];
    assert!(matches!(pass.finish_seq(&stmts, &mut comp), Action::Continue));
    assert!(matches!(pass.finish_par(&stmts, &mut comp), Action::Continue));
    let nested = vec![enable(a), Control::Sequence { stmts: vec![enable(a)] }];
    assert!(matches!(pass.finish_seq(&nested, &mut comp), Action::Continue));
    let port = PortRef::This { port: PortName::Named { name: "c".to_string() } };
    assert!(matches!(pass.finish_if(&port, a, &enable(b), &enable(a), &mut comp), Action::Continue));
    assert!(matches!(pass.finish_if(&port, b, &enable(a), &enable(a), &mut comp), Action::Continue));
    assert_eq!(comp.groups.len(), 2);
    assert!(comp.cells.is_empty());
    assert!(comp.continuous_assignments.is_empty());
}

#[test]
fn seq_total_overflow_is_left_alone() {
    let mut comp = Component::new("main".to_string());
    let a = static_group(&mut comp, "A", u64::MAX);
    let b = static_group(&mut comp, "B", 1);
    let mut pass = StaticTiming::default();
    assert!(matches!(pass.finish_seq(&vec![enable(a), enable(b)], &mut comp), Action::Continue));
    assert!(comp.cells.is_empty());
}

#[test]
fn empty_seq_and_par() {
    let mut comp = Component::new("main".to_string());
    let mut pass = StaticTiming::default();
    let g = enabled_group(pass.finish_seq(&Vec::new(), &mut comp));
    assert_eq!(comp.groups[g].static_time, Some(0));
    let h = enabled_group(pass.finish_par(&Vec::new(), &mut comp));
    assert_eq!(comp.groups[h].static_time, Some(0));
}

#[test]
fn nested_par_in_seq() {
    let mut comp = Component::new("main".to_string());
    let a = static_group(&mut comp, "A", 2);
    let b = static_group(&mut comp, "B", 3);
    let c = static_group(&mut comp, "C", 4);
    comp.control = Control::Sequence {
        stmts: vec![Control::Par { stmts: vec![enable(a), enable(b)] }, enable(c)],
    };
    let mut pass = StaticTiming::default();
    pass.run(&mut comp).expect("pass runs");
    let top = match comp.control {
        Control::Enable { group } => group,
        ref other => panic!("expected an enable, got {:?}", other),
    };
    assert_eq!(comp.groups[top].static_time, Some(7));
    assert!(comp.groups[top].name.starts_with("static_seq"));
    let par = comp.groups[top]
        .assignments
        .iter()
        .find_map(|x| match x.dst {
            PortRef::Hole { group, hole: Hole::Go } if group != c => Some(group),
            _ => None,
        })
        .expect("par group");
    assert_eq!(comp.groups[par].static_time, Some(3));
    assert!(comp.groups[par].name.starts_with("static_par"));
    assert_eq!(go_cycles(&comp, top, par, 10, None, 0), vec![0, 1, 2, 3]);
    assert_eq!(go_cycles(&comp, top, c, 10, None, 0), vec![3, 4, 5, 6]);
}

#[test]
fn running_twice_changes_nothing() {
    let mut comp = Component::new("main".to_string());
    let a = static_group(&mut comp, "A", 2);
    let b = comp.add_group("B", None, Vec::new());
    let c = static_group(&mut comp, "C", 4);
    comp.control = Control::Sequence {
        stmts: vec![Control::Par { stmts: vec![enable(a), enable(c)] }, enable(b), enable(c)],
    };
    let mut pass = StaticTiming::default();
    pass.run(&mut comp).expect("pass runs");
    let groups = comp.groups.len();
    let cells = comp.cells.clone();
    let cont = comp.continuous_assignments.len();
    let shape = format!("{:?}", comp.control);
    pass.run(&mut comp).expect("pass runs");
    assert_eq!(comp.groups.len(), groups);
    assert_eq!(comp.cells, cells);
    assert_eq!(comp.continuous_assignments.len(), cont);
    assert_eq!(format!("{:?}", comp.control), shape);
    match &comp.control {
        Control::Sequence { stmts } => assert_eq!(stmts.len(), 3),
        other => panic!("expected a seq, got {:?}", other),
    }
}

#[test]
fn while_body_is_compiled_but_loop_kept() {
    let mut comp = Component::new("main".to_string());
    let cond = static_group(&mut comp, "cond", 0);
    let a = static_group(&mut comp, "A", 1);
    let b = static_group(&mut comp, "B", 2);
    comp.control = Control::While {
        port: PortRef::This { port: PortName::Named { name: "c".to_string() } },
        cond,
        body: Box::new(Control::Sequence { stmts: vec![enable(a), enable(b)] }),
    };
    let mut pass = StaticTiming::default();
    pass.run(&mut comp).expect("pass runs");
    match &comp.control {
        Control::While { body, .. } => match **body {
            Control::Enable { group } => assert_eq!(comp.groups[group].static_time, Some(3)),
            ref other => panic!("expected an enable, got {:?}", other),
        },
        other => panic!("expected a while, got {:?}", other),
    }
}

#[test]
fn latency_beyond_counter_is_left_alone() {
    let mut comp = Component::new("main".to_string());
    let a = static_group(&mut comp, "A", 1u64 << 31);
    let b = static_group(&mut comp, "B", 1u64 << 31);
    let big = static_group(&mut comp, "C", 1u64 << 32);
    let mut pass = StaticTiming::default();
    assert!(matches!(pass.finish_seq(&vec![enable(a), enable(b)], &mut comp), Action::Continue));
    assert!(matches!(pass.finish_par(&vec![enable(big)], &mut comp), Action::Continue));
    let port = PortRef::This { port: PortName::Named { name: "c".to_string() } };
    assert!(matches!(pass.finish_if(&port, a, &enable(b), &enable(a), &mut comp), Action::Continue));
    assert!(comp.cells.is_empty());
    let just_below = static_group(&mut comp, "D", (1u64 << 31) - 1);
    let g = enabled_group(pass.finish_seq(&vec![enable(a), enable(just_below)], &mut comp));
    assert_eq!(comp.groups[g].static_time, Some((1u64 << 32) - 1));
}

#[test]
fn terminals_are_kept() {
    let mut comp = Component::new("main".to_string());
    let a = static_group(&mut comp, "A", 2);
    let b = static_group(&mut comp, "B", 3);
    comp.control = Control::Sequence {
        stmts: vec![
            Control::Print { var: "x".to_string() },
            Control::Par { stmts: vec![enable(a), enable(b)] },
            Control::Disable { group: a },
            Control::Empty,
        ],
    };
    let mut pass = StaticTiming::default();
    pass.run(&mut comp).expect("pass runs");
    match &comp.control {
        Control::Sequence { stmts } => {
            assert_eq!(stmts.len(), 4);
            assert!(matches!(&stmts[0], Control::Print { var } if var == "x"));
            match stmts[1] {
                Control::Enable { group } => assert_eq!(comp.groups[group].static_time, Some(3)),
                ref other => panic!("expected an enable, got {:?}", other),
            }
            assert!(matches!(stmts[2], Control::Disable { group } if group == a));
            assert!(matches!(stmts[3], Control::Empty));
        }
        other => panic!("expected a seq, got {:?}", other),
    }
}

#[test]
fn new_names_are_distinct() {
    let mut comp = Component::new("main".to_string());
    let a = static_group(&mut comp, "A", 2);
    let b = static_group(&mut comp, "B", 3);
    let c = static_group(&mut comp, "C", 1);
    let mut pass = StaticTiming::default();
    let g = enabled_group(pass.finish_seq(&vec![enable(a), enable(b), enable(c)], &mut comp));
    let h = enabled_group(pass.finish_par(&vec![enable(a), enable(g)], &mut comp));
    assert_eq!(comp.groups[g].name, "static_seq0");
    assert_eq!(comp.groups[h].name, "static_par0");
    assert!(comp.cells.len() > 10);
    assert_eq!(comp.cells[0].name, "fsm0");
    assert_eq!(comp.cells[1].name, "const0");
    assert!(comp.cells.iter().any(|x| x.name == "const10"));
    for (i, x) in comp.cells.iter().enumerate() {
        for y in comp.cells.iter().skip(i + 1) {
            assert_ne!(x.name, y.name);
        }
    }
}

#[test]
fn missing_group_is_an_error() {
    let mut comp = Component::new("main".to_string());
    let a = static_group(&mut comp, "A", 2);
    comp.control = Control::Sequence { stmts: vec![enable(a), enable(7)] };
    let mut pass = StaticTiming::default();
    assert_eq!(pass.run(&mut comp), Err(PassError::MissingGroup));
    assert_eq!(comp.groups.len(), 1);
    assert!(comp.cells.is_empty());
}

#[test]
fn generated_names_skip_taken_ones() {
    let mut comp = Component::new("main".to_string());
    let a = comp.add_group("static_seq0", Some(2), Vec::new());
    let b = comp.add_group("static_seq1", Some(3), Vec::new());
    assert_eq!(comp.groups[a].name, "static_seq00");
    comp.groups[a].name = "static_seq0".to_string();
    comp.groups[b].name = "static_seq1".to_string();
    comp.cells.push(Cell { name: "fsm0".to_string(), prototype: CellType::Reg { width: 1 } });
    comp.cells.push(Cell { name: "const0".to_string(), prototype: CellType::Reg { width: 1 } });
    let mut pass = StaticTiming::default();
    let g = enabled_group(pass.finish_seq(&vec![enable(a), enable(b)], &mut comp));
    assert_eq!(comp.groups[g].name, "static_seq2");
    assert_eq!(comp.cells[2].name, "fsm1");
    assert_eq!(comp.cells[3].name, "const1");
    for (i, x) in comp.cells.iter().enumerate() {
        for y in comp.cells.iter().skip(i + 1) {
            assert_ne!(x.name, y.name);
        }
    }
    for (i, x) in comp.groups.iter().enumerate() {
        for y in comp.groups.iter().skip(i + 1) {
            assert_ne!(x.name, y.name);
        }
    }
}
