//! Abstract syntax tree of the surface language.
use vstd::prelude::*;

verus! {

pub type Id = String;

#[derive(Debug, Hash)]
pub struct Namespace {
    pub name: String,
    pub components: Vec<Component>,
}

#[derive(Debug, Hash)]
pub struct Component {
    pub name: String,
    pub inputs: Vec<Portdef>,
    pub outputs: Vec<Portdef>,
    pub structure: Vec<Structure>,
    pub control: Control,
}

#[derive(Clone, Debug, Hash)]
pub struct Portdef {
    pub name: String,
    pub width: i64,
}

#[derive(Debug, Clone, PartialEq, Eq, Hash)]
pub enum Port {
    Comp { component: Id, port: String },
    This { port: String },
}

#[derive(Clone, Debug, Hash, PartialEq)]
pub struct Compinst {
    pub name: String,
    pub params: Vec<i64>,
}

/// `(new name component)`: an instance of a user-defined component.
#[derive(Clone, Debug, Hash, PartialEq)]
pub struct Decl {
    pub name: Id,
    pub component: String,
}

/// `(new-std name (prim params...))`: an instance of a library primitive.
#[derive(Clone, Debug, Hash, PartialEq)]
pub struct Std {
    pub name: Id,
    pub instance: Compinst,
}

/// `(-> src dest)`: a wire from a source port to a destination port.
#[derive(Clone, Debug, Hash, PartialEq)]
pub struct Wire {
    pub src: Port,
    pub dest: Port,
}

#[derive(Clone, Debug, Hash, PartialEq)]
pub enum Structure {
    Decl { data: Decl },
    Std { data: Std },
    Wire { data: Wire },
}

impl Structure {
    pub fn decl(name: Id, component: String) -> (r: Structure)
        ensures
            r == (Structure::Decl { data: Decl { name, component } }),
    {
        Structure::Decl { data: Decl { name, component } }
    }

    pub fn std_prim(name: Id, instance: Compinst) -> (r: Structure)
        ensures
            r == (Structure::Std { data: Std { name, instance } }),
    {
        Structure::Std { data: Std { name, instance } }
    }

    pub fn wire(src: Port, dest: Port) -> (r: Structure)
        ensures
            r == (Structure::Wire { data: Wire { src, dest } }),
    {
        Structure::Wire { data: Wire { src, dest } }
    }
}

#[derive(Debug, Hash)]
pub struct Sequence {
    pub stmts: Vec<Control>,
}

#[derive(Debug, Hash)]
pub struct Par {
    pub stmts: Vec<Control>,
}

#[derive(Debug, Hash)]
pub struct If {
    pub port: Port,
    pub cond: Vec<String>,
    pub tbranch: Box<Control>,
    pub fbranch: Box<Control>,
}

#[derive(Debug, Hash)]
pub struct Ifen {
    pub port: Port,
    pub cond: Vec<String>,
    pub tbranch: Box<Control>,
    pub fbranch: Box<Control>,
}

#[derive(Debug, Hash)]
pub struct While {
    pub port: Port,
    pub cond: Vec<String>,
    pub body: Box<Control>,
}

#[derive(Debug, Clone, Hash)]
pub struct Print {
    pub var: String,
}

#[derive(Debug, Clone, Hash)]
pub struct Enable {
    pub comps: Vec<String>,
}

#[derive(Debug, Clone, Hash)]
pub struct Disable {
    pub comps: Vec<String>,
}

#[derive(Debug, Clone, Hash)]
pub struct Empty {}

#[derive(Debug, Hash)]
pub enum Control {
    Sequence { data: Sequence },
    Par { data: Par },
    If { data: If },
    Ifen { data: Ifen },
    While { data: While },
    Print { data: Print },
    Enable { data: Enable },
    Disable { data: Disable },
    Empty { data: Empty },
}

impl Control {
    pub fn seq(stmts: Vec<Control>) -> (r: Control)
        ensures
            r matches Control::Sequence { data } && data.stmts == stmts,
    {
        Control::Sequence { data: Sequence { stmts } }
    }

    pub fn par(stmts: Vec<Control>) -> (r: Control)
        ensures
            r matches Control::Par { data } && data.stmts == stmts,
    {
        Control::Par { data: Par { stmts } }
    }

    pub fn print(var: String) -> (r: Control)
        ensures
            r matches Control::Print { data } && data.var == var,
    {
        Control::Print { data: Print { var } }
    }

    pub fn enable(comps: Vec<String>) -> (r: Control)
        ensures
            r matches Control::Enable { data } && data.comps == comps,
    {
        Control::Enable { data: Enable { comps } }
    }

    pub fn disable(comps: Vec<String>) -> (r: Control)
        ensures
            r matches Control::Disable { data } && data.comps == comps,
    {
        Control::Disable { data: Disable { comps } }
    }

    pub fn empty() -> (r: Control)
        ensures
            r is Empty,
    {
        Control::Empty { data: Empty {} }
    }
}

} // verus!
