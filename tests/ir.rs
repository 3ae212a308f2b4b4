use calyx::ir::{CellType, CmpOp, Component, Guard, PortName, PortRef};

#[test]
fn builder_names_and_indices() {
    let mut comp = Component::new("main".to_string());
    let r = comp.add_cell("fsm", CellType::Reg { width: 32 });
    assert_eq!(r, 0);
    assert_eq!(comp.cells[0].name, "fsm0");
    let k = comp.add_constant(5, 32);
    assert_eq!(k, PortRef::Cell { cell: 1, port: PortName::Out });
    assert_eq!(comp.cells[1].prototype, CellType::Constant { value: 5, bits: 32 });
    assert_eq!(comp.cells[1].name, "const0");
    let g = comp.add_group("static_seq", Some(4), Vec::new());
    assert_eq!(g, 0);
    assert_eq!(comp.groups[0].name, "static_seq0");
    assert_eq!(comp.groups[0].static_time, Some(4));
    let h = comp.add_group("static_seq", None, Vec::new());
    assert_eq!(comp.groups[h].name, "static_seq1");
    let c = comp.add_cell("fsm", CellType::Reg { width: 32 });
    assert_eq!(comp.cells[c].name, "fsm1");
}

#[test]
fn guard_constructors() {
    let p = PortRef::Cell { cell: 0, port: PortName::Out };
    let q = PortRef::Cell { cell: 1, port: PortName::Out };
    let g = Guard::and(Guard::cmp(CmpOp::Lt, p.clone(), q.clone()), Guard::not(Guard::port(p.clone())));
    let expected = Guard::And {
        left: Box::new(Guard::Cmp { op: CmpOp::Lt, left: p.clone(), right: q.clone() }),
            right: Box::new(Guard::Not { inner: Box::new(Guard::Port { port: p.clone() }) }),
        };
    assert_eq!(format!("{:?}", g), format!("{:?}", expected));
    assert!(matches!(Guard::or(Guard::True, Guard::True), Guard::Or { .. }));
    assert_eq!(p.duplicate(), p);
}
