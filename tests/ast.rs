use calyx::ast::{Compinst, Control, Port, Structure};

#[test]
fn structure_constructors() {
    match Structure::decl("a0".to_string(), "adder".to_string()) {
        Structure::Decl { data } => {
            assert_eq!(data.name, "a0");
            assert_eq!(data.component, "adder");
        }
        other => panic!("unexpected {:?}", other),
    }
    let inst = Compinst { name: "std_reg".to_string(), params: vec![32] };
    match Structure::std_prim("r".to_string(), inst.clone()) {
        Structure::Std { data } => {
            assert_eq!(data.name, "r");
            assert_eq!(data.instance, inst);
        }
        other => panic!("unexpected {:?}", other),
    }
    let src = Port::Comp { component: "r".to_string(), port: "out".to_string() };
    let dest = Port::This { port: "out".to_string() };
    assert_eq!(
        Structure::wire(src.clone(), dest.clone()),
        Structure::Wire { data: calyx::ast::Wire { src, dest } }
    );
}

#[test]
fn control_constructors() {
    let names = vec!["a".to_string(), "b".to_string()];
    match Control::enable(names.clone()) {
        Control::Enable { data } => assert_eq!(data.comps, names),
        other => panic!("unexpected {:?}", other),
    }
    match Control::disable(names.clone()) {
        Control::Disable { data } => assert_eq!(data.comps, names),
        other => panic!("unexpected {:?}", other),
    }
    match Control::print("x".to_string()) {
        Control::Print { data } => assert_eq!(data.var, "x"),
        other => panic!("unexpected {:?}", other),
    }
    assert!(matches!(Control::empty(), Control::Empty { .. }));
    match Control::seq(vec![Control::empty(), Control::empty()]) {
        Control::Sequence { data } => assert_eq!(data.stmts.len(), 2),
        other => panic!("unexpected {:?}", other),
    }
    match Control::par(vec![Control::empty()]) {
        Control::Par { data } => assert_eq!(data.stmts.len(), 1),
        other => panic!("unexpected {:?}", other),
    }
}
