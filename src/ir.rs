//! Intermediate representation: a component owns arenas of cells and groups,
//! and everything else refers to them by index.
use vstd::arithmetic::power2::pow2;
use vstd::prelude::*;
use vstd::string::StringExecFns;
use vstd::set_lib::{lemma_int_range, lemma_len_subset, lemma_map_size, set_int_range};

verus! {

/// The two holes that every group exposes.
#[derive(Clone, Copy, Debug, PartialEq, Eq, Structural)]
pub enum Hole {
    Go,
    Done,
}

/// Name of a port on a cell or on the component boundary.
#[derive(Clone, Debug, PartialEq, Eq)]
pub enum PortName {
    In,
    WriteEn,
    Out,
    Done,
    Left,
    Right,
    Named { name: String },
}

/// A reference to a signal: a port of a cell, a hole of a group, or a port of
/// the enclosing component.
#[derive(Clone, Debug, PartialEq, Eq)]
pub enum PortRef {
    Cell { cell: usize, port: PortName },
    Hole { group: usize, hole: Hole },
    This { port: PortName },
}

impl PortName {
    pub fn duplicate(&self) -> (r: PortName)
        ensures
            r == *self,
    {
        match self {
            PortName::In => PortName::In,
            PortName::WriteEn => PortName::WriteEn,
            PortName::Out => PortName::Out,
            PortName::Done => PortName::Done,
            PortName::Left => PortName::Left,
            PortName::Right => PortName::Right,
            PortName::Named { name } => PortName::Named { name: name.clone() },
        }
    }
}

impl PortRef {
    pub fn duplicate(&self) -> (r: PortRef)
        ensures
            r == *self,
    {
        match self {
            PortRef::Cell { cell, port } => PortRef::Cell { cell: *cell, port: port.duplicate() },
            PortRef::Hole { group, hole } => PortRef::Hole { group: *group, hole: *hole },
            PortRef::This { port } => PortRef::This { port: port.duplicate() },
        }
    }
}

/// Relational operators of the guard algebra.
#[derive(Clone, Copy, Debug, PartialEq, Eq, Structural)]
pub enum CmpOp {
    Eq,
    Neq,
    Lt,
    Le,
    Gt,
    Ge,
}

/// A boolean activation condition over port values.
#[derive(Debug)]
pub enum Guard {
    True,
    Port { port: PortRef },
    Cmp { op: CmpOp, left: PortRef, right: PortRef },
    And { left: Box<Guard>, right: Box<Guard> },
    Or { left: Box<Guard>, right: Box<Guard> },
    Not { inner: Box<Guard> },
}

pub open spec fn cmp_holds(op: CmpOp, a: int, b: int) -> bool {
    match op {
        CmpOp::Eq => a == b,
        CmpOp::Neq => a != b,
        CmpOp::Lt => a < b,
        CmpOp::Le => a <= b,
        CmpOp::Gt => a > b,
        CmpOp::Ge => a >= b,
    }
}

/// Value of a guard when every port `p` carries the value `env(p)`; a port
/// used as a guard holds when its value is non-zero.
pub open spec fn eval(g: Guard, env: spec_fn(PortRef) -> int) -> bool
    decreases g,
{
    match g {
        Guard::True => true,
        Guard::Port { port } => env(port) != 0,
        Guard::Cmp { op, left, right } => cmp_holds(op, env(left), env(right)),
        Guard::And { left, right } => eval(*left, env) && eval(*right, env),
        Guard::Or { left, right } => eval(*left, env) || eval(*right, env),
        Guard::Not { inner } => !eval(*inner, env),
    }
}

impl Guard {
    pub fn port(port: PortRef) -> (r: Guard)
        ensures
            r == (Guard::Port { port }),
    {
        Guard::Port { port }
    }

    pub fn cmp(op: CmpOp, left: PortRef, right: PortRef) -> (r: Guard)
        ensures
            r == (Guard::Cmp { op, left, right }),
    {
        Guard::Cmp { op, left, right }
    }

    pub fn and(left: Guard, right: Guard) -> (r: Guard)
        ensures
            r == (Guard::And { left: Box::new(left), right: Box::new(right) }),
    {
        Guard::And { left: Box::new(left), right: Box::new(right) }
    }

    pub fn or(left: Guard, right: Guard) -> (r: Guard)
        ensures
            r == (Guard::Or { left: Box::new(left), right: Box::new(right) }),
    {
        Guard::Or { left: Box::new(left), right: Box::new(right) }
    }

    pub fn not(inner: Guard) -> (r: Guard)
        ensures
            r == (Guard::Not { inner: Box::new(inner) }),
    {
        Guard::Not { inner: Box::new(inner) }
    }
}

/// `dst` is driven by `src` while `guard` holds.
#[derive(Debug)]
pub struct Assignment {
    pub dst: PortRef,
    pub src: PortRef,
    pub guard: Guard,
}

/// What a cell is an instance of.
#[derive(Clone, Debug, PartialEq, Eq)]
pub enum CellType {
    /// `std_reg(width)`: ports `in`, `write_en`, `out`, `done`.
    Reg { width: u64 },
    /// `std_add(width)`: ports `left`, `right`, `out`.
    Add { width: u64 },
    /// `constant(value, width)`: port `out`.
    Constant { value: u64, bits: u64 },
    /// An instance of a user-defined component.
    Instance { component: String },
}

#[derive(Clone, Debug, PartialEq, Eq)]
pub struct Cell {
    pub name: String,
    pub prototype: CellType,
}

#[derive(Debug)]
pub struct Group {
    pub name: String,
    /// The `static` attribute: the group's exact latency in cycles, if known.
    pub static_time: Option<u64>,
    pub assignments: Vec<Assignment>,
}

/// Control program over the groups of a component.
#[derive(Debug)]
pub enum Control {
    Sequence { stmts: Vec<Control> },
    Par { stmts: Vec<Control> },
    If { port: PortRef, cond: usize, tbranch: Box<Control>, fbranch: Box<Control> },
    While { port: PortRef, cond: usize, body: Box<Control> },
    Enable { group: usize },
    Disable { group: usize },
    Print { var: String },
    Empty,
}

pub struct Component {
    pub name: String,
    pub cells: Vec<Cell>,
    pub groups: Vec<Group>,
    pub continuous_assignments: Vec<Assignment>,
    pub control: Control,
}

/// `new` keeps every element of `old` at its place and may add more after them.
pub open spec fn grows<T>(old: Seq<T>, new: Seq<T>) -> bool {
    &&& old.len() <= new.len()
    &&& forall|i: int| 0 <= i < old.len() ==> new[i] == old[i]
}

/// The character of a decimal digit.
pub open spec fn digit(d: nat) -> char {
    if d == 0 {
        '0'
    } else if d == 1 {
        '1'
    } else if d == 2 {
        '2'
    } else if d == 3 {
        '3'
    } else if d == 4 {
        '4'
    } else if d == 5 {
        '5'
    } else if d == 6 {
        '6'
    } else if d == 7 {
        '7'
    } else if d == 8 {
        '8'
    } else {
        '9'
    }
}

pub open spec fn is_digit(c: char) -> bool {
    '0' <= c <= '9'
}

/// The decimal form of `n`, without leading zeros.
pub open spec fn decimal(n: nat) -> Seq<char>
    decreases n,
{
    if n < 10 {
        seq![digit(n)]
    } else {
        decimal(n / 10).push(digit(n % 10))
    }
}

/// The name `prefix` followed by the decimal digits of `n`.
pub open spec fn numbered_name(prefix: Seq<char>, n: nat) -> Seq<char> {
    prefix + decimal(n)
}

/// A constant cell's value fits in its width.
pub open spec fn fits(p: CellType) -> bool {
    p matches CellType::Constant { value, bits } ==> value < pow2(bits as nat)
}

/// Every cell from index `from` on has a name that no earlier cell has, and
/// a constant value that fits its width.
pub open spec fn fresh_cells(from: nat, cells: Seq<Cell>) -> bool {
    forall|k: int|
        from <= k < cells.len() ==> fits((#[trigger] cells[k]).prototype) && forall|j: int|
            0 <= j < k ==> cells[j].name@ != cells[k].name@
}

proof fn lemma_decimal_digits(n: nat)
    ensures
        decimal(n).len() >= 1,
        forall|i: int| 0 <= i < decimal(n).len() ==> is_digit(#[trigger] decimal(n)[i]),
    decreases n,
{
    if n >= 10 {
        lemma_decimal_digits(n / 10);
    }
}

proof fn lemma_decimal_injective(a: nat, b: nat)
    requires
        decimal(a) == decimal(b),
    ensures
        a == b,
    decreases a,
{
    lemma_decimal_digits(a / 10);
    lemma_decimal_digits(b / 10);
    if a >= 10 && b >= 10 {
        assert(decimal(a).drop_last() =~= decimal(a / 10));
        assert(decimal(b).drop_last() =~= decimal(b / 10));
        lemma_decimal_injective(a / 10, b / 10);
        assert(decimal(a).last() == digit(a % 10));
        assert(decimal(b).last() == digit(b % 10));
        assert(a % 10 == b % 10);
        assert(a == 10 * (a / 10) + a % 10);
        assert(b == 10 * (b / 10) + b % 10);
    } else if a < 10 && b < 10 {
        assert(decimal(a)[0] == digit(a));
        assert(decimal(b)[0] == digit(b));
    } else if a < 10 {
        assert(decimal(a).len() == 1);
    } else {
        assert(decimal(b).len() == 1);
    }
}

/// Different numbers give different names.
pub proof fn lemma_numbered_injective(p: Seq<char>, i: nat, j: nat)
    requires
        numbered_name(p, i) == numbered_name(p, j),
    ensures
        i == j,
{
    let s = numbered_name(p, i);
    assert(decimal(i) =~= s.subrange(p.len() as int, s.len() as int));
    assert(decimal(j) =~= s.subrange(p.len() as int, s.len() as int));
    lemma_decimal_injective(i, j);
}

/// One of the `names.len() + 1` names `p0`, `p1`, ... is not in `names`.
proof fn lemma_some_name_free(p: Seq<char>, names: Seq<Seq<char>>)
    ensures
        exists|k: int| 0 <= k <= names.len() && !names.contains(#[trigger] numbered_name(p, k as nat)),
{
    if forall|k: int| 0 <= k <= names.len() ==> names.contains(#[trigger] numbered_name(p, k as nat)) {
        let n = names.len() as int;
        let r = set_int_range(0, n + 1);
        lemma_int_range(0, n + 1);
        let f = |k: int| numbered_name(p, k as nat);
        assert forall|x1: int, x2: int| r.contains(x1) && r.contains(x2) && #[trigger] f(x1) == #[trigger] f(x2) implies x1 == x2 by {
            lemma_numbered_injective(p, x1 as nat, x2 as nat);
        }
        let c = r.map(f);
        lemma_map_size(r, c, f);
        names.lemma_cardinality_of_set();
        assert forall|x: Seq<char>| c.contains(x) implies names.to_set().contains(x) by {
            let k = choose|k: int| r.contains(k) && f(k) == x;
            assert(names.contains(numbered_name(p, k as nat)));
        }
        lemma_len_subset(c, names.to_set());
    }
}

/// `prefix` followed by the smallest number that gives a name not in `names`.
fn fresh_name(prefix: &str, names: &Vec<String>) -> (r: String)
    ensures
        forall|j: int| 0 <= j < names@.len() ==> names@[j]@ != r@,
        prefix@.is_prefix_of(r@),
{
    let ghost views = names@.map_values(|x: String| x@);
    let n = names.len();
    let mut k: usize = 0;
    loop
        invariant
            k <= n,
            n == names@.len(),
            views == names@.map_values(|x: String| x@),
            forall|k2: int| 0 <= k2 < k ==> views.contains(#[trigger] numbered_name(prefix@, k2 as nat)),
        decreases n - k,
    {
        let cand = numbered(prefix, k);
        let mut taken = false;
        let mut j: usize = 0;
        while j < n
            invariant
                0 <= j <= n,
                n == names@.len(),
                views == names@.map_values(|x: String| x@),
                taken ==> views.contains(cand@),
                !taken ==> forall|j2: int| 0 <= j2 < j ==> names@[j2]@ != cand@,
            decreases n - j,
        {
            if names[j] == cand {
                assert(views[j as int] == cand@);
                taken = true;
            }
            j += 1;
        }
        if !taken {
            assert(cand@.subrange(0, prefix@.len() as int) =~= prefix@);
            return cand;
        }
        if k == n {
            proof {
                lemma_some_name_free(prefix@, views);
            }
        }
        k += 1;
    }
}

/// The one-character string of the decimal digit `d`.
fn digit_str(d: usize) -> (r: &'static str)
    requires
        d < 10,
    ensures
        r@ == seq![digit(d as nat)],
{
    if d == 0 {
        proof {
            reveal_strlit("0");
        }
        "0"
    } else if d == 1 {
        proof {
            reveal_strlit("1");
        }
        "1"
    } else if d == 2 {
        proof {
            reveal_strlit("2");
        }
        "2"
    } else if d == 3 {
        proof {
            reveal_strlit("3");
        }
        "3"
    } else if d == 4 {
        proof {
            reveal_strlit("4");
        }
        "4"
    } else if d == 5 {
        proof {
            reveal_strlit("5");
        }
        "5"
    } else if d == 6 {
        proof {
            reveal_strlit("6");
        }
        "6"
    } else if d == 7 {
        proof {
            reveal_strlit("7");
        }
        "7"
    } else if d == 8 {
        proof {
            reveal_strlit("8");
        }
        "8"
    } else {
        proof {
            reveal_strlit("9");
        }
        "9"
    }
}

/// The decimal form of `n`.
fn decimal_string(n: usize) -> (r: String)
    ensures
        r@ == decimal(n as nat),
    decreases n,
{
    let mut r = if n < 10 {
        String::new()
    } else {
        decimal_string(n / 10)
    };
    r.append(digit_str(n % 10));
    assert(r@ =~= decimal(n as nat));
    r
}

/// `prefix` followed by the decimal form of `n`.
fn numbered(prefix: &str, n: usize) -> (r: String)
    ensures
        r@ == numbered_name(prefix@, n as nat),
{
    let mut r = String::new();
    r.append(prefix);
    let digits = decimal_string(n);
    r.append(digits.as_str());
    assert(r@ =~= numbered_name(prefix@, n as nat));
    r
}

impl Component {
    pub fn new(name: String) -> (r: Component)
        ensures
            r.name == name,
            r.cells@.len() == 0,
            r.groups@.len() == 0,
            r.continuous_assignments@.len() == 0,
            r.control is Empty,
    {
        Component {
            name,
            cells: Vec::new(),
            groups: Vec::new(),
            continuous_assignments: Vec::new(),
            control: Control::Empty,
        }
    }

    /// The names of the groups, in order.
    pub fn group_names(&self) -> (r: Vec<String>)
        ensures
            r@.len() == self.groups@.len(),
            forall|j: int| 0 <= j < r@.len() ==> r@[j]@ == self.groups@[j].name@,
    {
        let mut r: Vec<String> = Vec::new();
        let mut i: usize = 0;
        while i < self.groups.len()
            invariant
                0 <= i <= self.groups@.len(),
                r@.len() == i,
                forall|j: int| 0 <= j < i ==> r@[j]@ == self.groups@[j].name@,
            decreases self.groups@.len() - i,
        {
            r.push(self.groups[i].name.clone());
            i += 1;
        }
        r
    }

    /// The names of the cells, in order.
    pub fn cell_names(&self) -> (r: Vec<String>)
        ensures
            r@.len() == self.cells@.len(),
            forall|j: int| 0 <= j < r@.len() ==> r@[j]@ == self.cells@[j].name@,
    {
        let mut r: Vec<String> = Vec::new();
        let mut i: usize = 0;
        while i < self.cells.len()
            invariant
                0 <= i <= self.cells@.len(),
                r@.len() == i,
                forall|j: int| 0 <= j < i ==> r@[j]@ == self.cells@[j].name@,
            decreases self.cells@.len() - i,
        {
            r.push(self.cells[i].name.clone());
            i += 1;
        }
        r
    }

    /// Appends a group named `prefix` followed by the smallest number that
    /// no group of the component has yet.
    pub fn add_group(
        &mut self,
        prefix: &str,
        static_time: Option<u64>,
        assignments: Vec<Assignment>,
    ) -> (r: usize)
        ensures
            r == old(self).groups@.len(),
            final(self).groups@.len() == r + 1,
            grows(old(self).groups@, final(self).groups@),
            prefix@.is_prefix_of(final(self).groups@[r as int].name@),
            forall|j: int| 0 <= j < r ==> old(self).groups@[j].name@ != final(self).groups@[r as int].name@,
            final(self).groups@[r as int].static_time == static_time,
            final(self).groups@[r as int].assignments == assignments,
            final(self).cells == old(self).cells,
            final(self).continuous_assignments == old(self).continuous_assignments,
            final(self).name == old(self).name,
            final(self).control == old(self).control,
    {
        let names = self.group_names();
        let name = fresh_name(prefix, &names);
        let r = self.groups.len();
        self.groups.push(Group { name, static_time, assignments });
        assert forall|j: int| 0 <= j < r implies old(self).groups@[j].name@ != self.groups@[r as int].name@ by {
            assert(names@[j]@ == old(self).groups@[j].name@);
        }
        r
    }

    /// Appends a cell named `prefix` followed by the smallest number that no
    /// cell of the component has yet.
    pub fn add_cell(&mut self, prefix: &str, prototype: CellType) -> (r: usize)
        ensures
            r == old(self).cells@.len(),
            final(self).cells@.len() == r + 1,
            grows(old(self).cells@, final(self).cells@),
            prefix@.is_prefix_of(final(self).cells@[r as int].name@),
            forall|j: int| 0 <= j < r ==> old(self).cells@[j].name@ != final(self).cells@[r as int].name@,
            forall|from: nat|
                from <= old(self).cells@.len() && #[trigger] fresh_cells(from, old(self).cells@) && fits(
                    prototype,
                ) ==> fresh_cells(from, final(self).cells@),
            final(self).cells@[r as int].prototype == prototype,
            final(self).groups == old(self).groups,
            final(self).continuous_assignments == old(self).continuous_assignments,
            final(self).name == old(self).name,
            final(self).control == old(self).control,
    {
        let names = self.cell_names();
        let name = fresh_name(prefix, &names);
        let r = self.cells.len();
        self.cells.push(Cell { name, prototype });
        assert forall|j: int| 0 <= j < r implies old(self).cells@[j].name@ != self.cells@[r as int].name@ by {
            assert(names@[j]@ == old(self).cells@[j].name@);
        }
        proof {
            assert forall|from: nat|
                from <= old(self).cells@.len() && #[trigger] fresh_cells(from, old(self).cells@) && fits(
                    prototype,
                ) implies fresh_cells(from, self.cells@) by {
                assert forall|k: int| from <= k < self.cells@.len() implies fits(
                    (#[trigger] self.cells@[k]).prototype,
                ) && forall|j: int| 0 <= j < k ==> self.cells@[j].name@ != self.cells@[k].name@ by {
                    if k < r {
                        assert(old(self).cells@[k] == self.cells@[k]);
                        assert forall|j: int| 0 <= j < k implies self.cells@[j].name@ != self.cells@[k].name@ by {
                            assert(old(self).cells@[j] == self.cells@[j]);
                        }
                    } else {
                        assert forall|j: int| 0 <= j < k implies self.cells@[j].name@ != self.cells@[k].name@ by {
                            assert(names@[j]@ == old(self).cells@[j].name@);
                        }
                    }
                }
            }
        }
        r
    }

    /// Appends a constant cell and returns its output port.
    pub fn add_constant(&mut self, value: u64, bits: u64) -> (r: PortRef)
        ensures
            r is Cell,
            r->cell == old(self).cells@.len(),
            r == cell_out(r->cell),
            final(self).cells@.len() == old(self).cells@.len() + 1,
            grows(old(self).cells@, final(self).cells@),
            forall|j: int| 0 <= j < old(self).cells@.len() ==> old(self).cells@[j].name@ != final(self).cells@[r->cell as int].name@,
            forall|from: nat|
                from <= old(self).cells@.len() && #[trigger] fresh_cells(from, old(self).cells@) && value
                    < pow2(bits as nat) ==> fresh_cells(from, final(self).cells@),
            final(self).cells@[old(self).cells@.len() as int].prototype == (CellType::Constant {
                value,
                bits,
            }),
            final(self).groups == old(self).groups,
            final(self).continuous_assignments == old(self).continuous_assignments,
            final(self).name == old(self).name,
            final(self).control == old(self).control,
    {
        let c = self.add_cell("const", CellType::Constant { value, bits });
        PortRef::Cell { cell: c, port: PortName::Out }
    }
}

pub open spec fn cell_out(cell: usize) -> PortRef {
    PortRef::Cell { cell, port: PortName::Out }
}

pub open spec fn cell_port(cell: usize, port: PortName) -> PortRef {
    PortRef::Cell { cell, port }
}

pub open spec fn go_of(group: usize) -> PortRef {
    PortRef::Hole { group, hole: Hole::Go }
}

/// `env` gives every constant cell's output its value.
pub open spec fn consts_hold(cells: Seq<Cell>, env: spec_fn(PortRef) -> int) -> bool {
    forall|k: int|
        0 <= k < cells.len() && (#[trigger] cells[k]).prototype is Constant ==> env(
            cell_out(k as usize),
        ) == cells[k].prototype->value
}

/// Under every valuation that agrees with the constant cells, `g` holds
/// exactly when `p` does.
pub open spec fn denotes(
    cells: Seq<Cell>,
    g: Guard,
    p: spec_fn(spec_fn(PortRef) -> int) -> bool,
) -> bool {
    forall|env: spec_fn(PortRef) -> int| #[trigger] consts_hold(cells, env) ==> eval(g, env) == p(env)
}

/// `p` is the output of a constant cell holding `v`.
pub open spec fn is_const(cells: Seq<Cell>, p: PortRef, v: nat) -> bool {
    &&& p matches PortRef::Cell { cell, port }
    &&& port is Out
    &&& cell < cells.len()
    &&& cells[cell as int].prototype is Constant
    &&& cells[cell as int].prototype->value == v
}

/// `a` drives `dst` with the constant `v` exactly while `p` holds.
pub open spec fn drives(
    cells: Seq<Cell>,
    a: Assignment,
    dst: PortRef,
    v: nat,
    p: spec_fn(spec_fn(PortRef) -> int) -> bool,
) -> bool {
    &&& a.dst == dst
    &&& is_const(cells, a.src, v)
    &&& denotes(cells, a.guard, p)
}

/// What holds of the old cells holds of the grown ones.
pub proof fn lemma_cells_grow(cells: Seq<Cell>, more: Seq<Cell>)
    requires
        grows(cells, more),
    ensures
        forall|g: Guard, p: spec_fn(spec_fn(PortRef) -> int) -> bool|
            #[trigger] denotes(cells, g, p) ==> denotes(more, g, p),
        forall|q: PortRef, v: nat| #[trigger] is_const(cells, q, v) ==> is_const(more, q, v),
        forall|a: Assignment, dst: PortRef, v: nat, p: spec_fn(spec_fn(PortRef) -> int) -> bool|
            #[trigger] drives(cells, a, dst, v, p) ==> drives(more, a, dst, v, p),
{
    assert forall|env: spec_fn(PortRef) -> int| #[trigger]
        consts_hold(more, env) implies consts_hold(cells, env) by {
        assert forall|k: int|
            0 <= k < cells.len() && (#[trigger] cells[k]).prototype is Constant implies env(
                cell_out(k as usize),
            ) == cells[k].prototype->value by {
            assert(more[k] == cells[k]);
        }
    }
}

} // verus!
