//! The static-timing pass: control whose groups all have a known latency is
//! replaced by one group driven by a counter.
use vstd::arithmetic::power2::lemma2_to64;
use vstd::prelude::*;
use crate::ir::{
    Cell, fits, fresh_cells,
    cell_out, cell_port, cmp_holds, consts_hold, denotes, drives, eval, go_of, grows, is_const,
    lemma_cells_grow, Assignment, CellType, CmpOp, Component, Control, Group, Guard, Hole,
    PortName, PortRef,
};

verus! {

/// Width of the counters that the pass creates.
pub const FSM_WIDTH: u64 = 32;

/// The first value that a counter of `FSM_WIDTH` bits cannot hold: a node
/// whose latency is not below it is left as it is.
pub const FSM_LIMIT: u64 = 4294967296;

/// What a visitor hook asks of the traversal.
#[derive(Debug)]
pub enum Action {
    /// Leave the node as it is.
    Continue,
    /// Replace the node.
    Change { control: Control },
}

/// How latencies of the children of a node combine.
#[derive(Clone, Copy, Debug, PartialEq, Eq, Structural)]
pub enum Fold {
    Sum,
    Max,
}

/// The latency of `c` when it enables a group that has a `static` attribute.
pub open spec fn static_of(c: Control, groups: Seq<Group>) -> Option<u64> {
    match c {
        Control::Enable { group } => if group < groups.len() {
            groups[group as int].static_time
        } else {
            None
        },
        _ => None,
    }
}

pub open spec fn latency(c: Control, groups: Seq<Group>) -> nat {
    match static_of(c, groups) {
        Some(t) => t as nat,
        None => 0,
    }
}

/// Every statement enables a group with a `static` attribute.
pub open spec fn all_static(stmts: Seq<Control>, groups: Seq<Group>) -> bool {
    forall|i: int| 0 <= i < stmts.len() ==> (#[trigger] static_of(stmts[i], groups)) is Some
}

pub open spec fn latencies(stmts: Seq<Control>, groups: Seq<Group>) -> Seq<nat> {
    Seq::new(stmts.len(), |i: int| latency(stmts[i], groups))
}

/// Left fold of `s` from 0 with addition or maximum.
pub open spec fn fold_with(op: Fold, s: Seq<nat>) -> nat
    decreases s.len(),
{
    if s.len() == 0 {
        0
    } else {
        let a = fold_with(op, s.drop_last());
        match op {
            Fold::Sum => a + s.last(),
            Fold::Max => if a >= s.last() {
                a
            } else {
                s.last()
            },
        }
    }
}

/// Start cycle of the `i`-th element of a sequence of latencies.
pub open spec fn start_of(s: Seq<nat>, i: int) -> nat {
    fold_with(Fold::Sum, s.take(i))
}

/// The counter of `fsm` compared with `v`.
pub open spec fn fsm_cmp(fsm: usize, op: CmpOp, v: nat) -> spec_fn(spec_fn(PortRef) -> int) -> bool {
    |env: spec_fn(PortRef) -> int| cmp_holds(op, env(cell_out(fsm)), v as int)
}

pub open spec fn cell_of(p: PortRef) -> usize {
    match p {
        PortRef::Cell { cell, .. } => cell,
        _ => 0,
    }
}

/// `a[base..base + 5]` counts `fsm` up by one each cycle until it reaches
/// `last`, and raises the done hole of `group` on `last`.
pub open spec fn counts_to(
    cells: Seq<Cell>,
    a: Seq<Assignment>,
    base: int,
    fsm: usize,
    group: usize,
    last: nat,
) -> bool {
    let incr = cell_of(a[base].dst);
    &&& 0 <= base && base + 5 <= a.len()
    &&& incr < cells.len() && cells[incr as int].prototype == (CellType::Add { width: FSM_WIDTH })
    &&& a[base].dst == cell_port(incr, PortName::Left)
    &&& a[base].src == cell_out(fsm)
    &&& a[base].guard is True
    &&& a[base + 1].dst == cell_port(incr, PortName::Right)
    &&& is_const(cells, a[base + 1].src, 1)
    &&& a[base + 1].guard is True
    &&& a[base + 2].dst == cell_port(fsm, PortName::In)
    &&& a[base + 2].src == cell_out(incr)
    &&& denotes(cells, a[base + 2].guard, fsm_cmp(fsm, CmpOp::Neq, last))
    &&& drives(cells, a[base + 3], cell_port(fsm, PortName::WriteEn), 1, fsm_cmp(fsm, CmpOp::Neq, last))
    &&& drives(cells, a[base + 4], PortRef::Hole { group, hole: Hole::Done }, 1, fsm_cmp(fsm, CmpOp::Eq, last))
}

/// `a[base]` and `a[base + 1]` put `fsm` back to zero on the cycle it reaches `last`.
pub open spec fn resets(cells: Seq<Cell>, a: Seq<Assignment>, base: int, fsm: usize, last: nat) -> bool {
    &&& 0 <= base && base + 2 <= a.len()
    &&& drives(cells, a[base], cell_port(fsm, PortName::In), 0, fsm_cmp(fsm, CmpOp::Eq, last))
    &&& drives(cells, a[base + 1], cell_port(fsm, PortName::WriteEn), 1, fsm_cmp(fsm, CmpOp::Eq, last))
}

/// `new` is `old` with one more group of latency `t`, whose name starts with
/// `prefix` and differs from every old group's, driven by a fresh counter;
/// every new cell has a name no other cell has and a constant value that fits
/// its width; reset by two more continuous assignments, and `r` enables that group.
pub open spec fn emitted(old: Component, new: Component, r: Action, t: nat, prefix: Seq<char>) -> bool {
    let g = old.groups@.len();
    let fsm = old.cells@.len();
    &&& r == (Action::Change { control: Control::Enable { group: g as usize } })
    &&& new.groups@.len() == g + 1
    &&& grows(old.groups@, new.groups@)
    &&& new.groups@[g as int].static_time == Some(t as u64)
    &&& grows(old.cells@, new.cells@)
    &&& prefix.is_prefix_of(new.groups@[g as int].name@)
    &&& forall|j: int| 0 <= j < g ==> old.groups@[j].name@ != new.groups@[g as int].name@
    &&& fresh_cells(fsm as nat, new.cells@)
    &&& fsm < new.cells@.len()
    &&& new.cells@[fsm as int].prototype == (CellType::Reg { width: FSM_WIDTH })
    &&& new.continuous_assignments@.len() == old.continuous_assignments@.len() + 2
    &&& grows(old.continuous_assignments@, new.continuous_assignments@)
    &&& resets(new.cells@, new.continuous_assignments@, old.continuous_assignments@.len() as int, fsm as usize, t)
    &&& new.name == old.name
    &&& new.control == old.control
}

proof fn lemma_const_value(cells: Seq<Cell>, q: PortRef, v: nat, env: spec_fn(PortRef) -> int)
    requires
        is_const(cells, q, v),
        consts_hold(cells, env),
    ensures
        env(q) == v,
{
    let k = q->cell as int;
    assert(cells[k].prototype is Constant);
}

proof fn lemma_denotes_cmp(cells: Seq<Cell>, op: CmpOp, fsm: usize, q: PortRef, v: nat)
    requires
        is_const(cells, q, v),
    ensures
        denotes(cells, Guard::Cmp { op, left: cell_out(fsm), right: q }, fsm_cmp(fsm, op, v)),
{
    assert forall|env: spec_fn(PortRef) -> int| #[trigger] consts_hold(cells, env) implies eval(
        Guard::Cmp { op, left: cell_out(fsm), right: q },
        env,
    ) == fsm_cmp(fsm, op, v)(env) by {
        lemma_const_value(cells, q, v, env);
    }
}

proof fn lemma_fold_step(op: Fold, s: Seq<nat>, i: int)
    requires
        0 <= i < s.len(),
    ensures
        fold_with(op, s.take(i + 1)) == (match op {
            Fold::Sum => fold_with(op, s.take(i)) + s[i],
            Fold::Max => if fold_with(op, s.take(i)) >= s[i] {
                fold_with(op, s.take(i))
            } else {
                s[i]
            },
        }),
        fold_with(op, s.take(i)) <= fold_with(op, s.take(i + 1)),
{
    assert(s.take(i + 1).drop_last() =~= s.take(i));
}

/// Collects the latencies of `stmts` and folds them with `op`; `None` when a
/// statement is not the enable of a group with a `static` attribute, or when
/// the result does not fit in 64 bits.
fn accumulate_static_time(stmts: &Vec<Control>, groups: &Vec<Group>, op: Fold) -> (r: Option<u64>)
    ensures
        r == (if all_static(stmts@, groups@) && fold_with(op, latencies(stmts@, groups@))
            <= u64::MAX {
            Some(fold_with(op, latencies(stmts@, groups@)) as u64)
        } else {
            None
        }),
{
    let ghost lat = latencies(stmts@, groups@);
    let mut acc: u64 = 0;
    let mut fits = true;
    let mut i: usize = 0;
    while i < stmts.len()
        invariant
            0 <= i <= stmts@.len(),
            lat == latencies(stmts@, groups@),
            forall|j: int| 0 <= j < i ==> (#[trigger] static_of(stmts@[j], groups@)) is Some,
            fits ==> acc == fold_with(op, lat.take(i as int)),
            !fits ==> fold_with(op, lat.take(i as int)) > u64::MAX,
        decreases stmts@.len() - i,
    {
        let t: u64 = match &stmts[i] {
            Control::Enable { group } => {
                if *group >= groups.len() {
                    assert(static_of(stmts@[i as int], groups@) is None);
                    return None;
                }
                match groups[*group].static_time {
                    Some(t) => t,
                    None => {
                        assert(static_of(stmts@[i as int], groups@) is None);
                        return None;
                    },
                }
            },
            _ => {
                assert(static_of(stmts@[i as int], groups@) is None);
                return None;
            },
        };
        assert(lat[i as int] == t);
        proof {
            lemma_fold_step(op, lat, i as int);
        }
        if fits {
            match op {
                Fold::Sum => match acc.checked_add(t) {
                    Some(x) => acc = x,
                    None => fits = false,
                },
                Fold::Max => if t > acc {
                    acc = t;
                },
            }
        }
        i += 1;
    }
    assert(lat.take(stmts@.len() as int) =~= lat);
    if fits {
        Some(acc)
    } else {
        None
    }
}

/// The group handle and latency of a statement known to be a static enable.
fn enable_info(c: &Control, groups: &Vec<Group>) -> (r: (usize, u64))
    requires
        static_of(*c, groups@) is Some,
    ensures
        *c == (Control::Enable { group: r.0 }),
        static_of(*c, groups@) == Some(r.1),
{
    match c {
        Control::Enable { group } => match groups[*group].static_time {
            Some(t) => (*group, t),
            None => (0, 0),
        },
        _ => (0, 0),
    }
}

/// Builds the five assignments that make `fsm` count up to `last` and raise
/// the done hole of `group` there; adds the adder and the constant one.
fn counter_assignments(comp: &mut Component, fsm: usize, group: usize, on: &PortRef, last: &PortRef, t: u64) -> (r: Vec<Assignment>)
    requires
        is_const(old(comp).cells@, *on, 1),
        is_const(old(comp).cells@, *last, t as nat),
    ensures
        r@.len() == 5,
        counts_to(final(comp).cells@, r@, 0, fsm, group, t as nat),
        cell_of(r@[0].dst) == old(comp).cells@.len(),
        forall|from: nat|
            from <= old(comp).cells@.len() && #[trigger] fresh_cells(from, old(comp).cells@) ==> fresh_cells(
                from,
                final(comp).cells@,
            ),
        grows(old(comp).cells@, final(comp).cells@),
        final(comp).groups == old(comp).groups,
        final(comp).continuous_assignments == old(comp).continuous_assignments,
        final(comp).name == old(comp).name,
        final(comp).control == old(comp).control,
{
    let ghost before = comp.cells@;
    let incr = comp.add_cell("incr", CellType::Add { width: FSM_WIDTH });
    let ghost mid = comp.cells@;
    let one = comp.add_constant(1, FSM_WIDTH);
    let ghost cells = comp.cells@;
    proof {
        lemma2_to64();
        assert(grows(before, cells));
        lemma_cells_grow(before, cells);
        lemma_denotes_cmp(cells, CmpOp::Eq, fsm, *last, t as nat);
    }
    let done_guard = Guard::cmp(CmpOp::Eq, PortRef::Cell { cell: fsm, port: PortName::Out }, last.duplicate());
    let not_done = Guard::not(Guard::cmp(CmpOp::Eq, PortRef::Cell { cell: fsm, port: PortName::Out }, last.duplicate()));
    let not_done2 = Guard::not(Guard::cmp(CmpOp::Eq, PortRef::Cell { cell: fsm, port: PortName::Out }, last.duplicate()));
    proof {
        assert forall|env: spec_fn(PortRef) -> int| #[trigger] consts_hold(cells, env) implies eval(
            not_done,
            env,
        ) == fsm_cmp(fsm, CmpOp::Neq, t as nat)(env) by {
            lemma_const_value(cells, *last, t as nat, env);
        }
    }
    assert(not_done2 == not_done);
    let mut r: Vec<Assignment> = Vec::new();
    r.push(Assignment { dst: PortRef::Cell { cell: incr, port: PortName::Left }, src: PortRef::Cell { cell: fsm, port: PortName::Out }, guard: Guard::True });
    r.push(Assignment { dst: PortRef::Cell { cell: incr, port: PortName::Right }, src: one, guard: Guard::True });
    r.push(Assignment { dst: PortRef::Cell { cell: fsm, port: PortName::In }, src: PortRef::Cell { cell: incr, port: PortName::Out }, guard: not_done });
    r.push(Assignment { dst: PortRef::Cell { cell: fsm, port: PortName::WriteEn }, src: on.duplicate(), guard: not_done2 });
    r.push(Assignment { dst: PortRef::Hole { group, hole: Hole::Done }, src: on.duplicate(), guard: done_guard });
    r
}

/// Adds to the continuous assignments the two that put `fsm` back to zero
/// on the cycle it reaches `last`.
fn add_reset(comp: &mut Component, fsm: usize, on: &PortRef, last: &PortRef, t: u64)
    requires
        is_const(old(comp).cells@, *on, 1),
        is_const(old(comp).cells@, *last, t as nat),
    ensures
        grows(old(comp).cells@, final(comp).cells@),
        forall|from: nat|
            from <= old(comp).cells@.len() && #[trigger] fresh_cells(from, old(comp).cells@) ==> fresh_cells(
                from,
                final(comp).cells@,
            ),
        final(comp).continuous_assignments@.len() == old(comp).continuous_assignments@.len() + 2,
        grows(old(comp).continuous_assignments@, final(comp).continuous_assignments@),
        resets(final(comp).cells@, final(comp).continuous_assignments@, old(comp).continuous_assignments@.len() as int, fsm, t as nat),
        final(comp).groups == old(comp).groups,
        final(comp).name == old(comp).name,
        final(comp).control == old(comp).control,
{
    let ghost before = comp.cells@;
    proof {
        lemma2_to64();
    }
    let zero = comp.add_constant(0, FSM_WIDTH);
    let ghost cells = comp.cells@;
    proof {
        lemma_cells_grow(before, cells);
        lemma_denotes_cmp(cells, CmpOp::Eq, fsm, *last, t as nat);
    }
    comp.continuous_assignments.push(Assignment {
        dst: PortRef::Cell { cell: fsm, port: PortName::In },
        src: zero,
        guard: Guard::cmp(CmpOp::Eq, PortRef::Cell { cell: fsm, port: PortName::Out }, last.duplicate()),
    });
    comp.continuous_assignments.push(Assignment {
        dst: PortRef::Cell { cell: fsm, port: PortName::WriteEn },
        src: on.duplicate(),
        guard: Guard::cmp(CmpOp::Eq, PortRef::Cell { cell: fsm, port: PortName::Out }, last.duplicate()),
    });
}


/// Whether the `seq` compiler asserts the go of a child that starts on cycle
/// `c` and lasts `s` cycles while the counter reads `v`.
pub open spec fn seq_go(c: nat, s: nat, v: int) -> bool {
    if s == 1 {
        v == c
    } else if c == 0 {
        v <= c + s
    } else {
        c <= v && v < c + s
    }
}

pub open spec fn seq_window(fsm: usize, c: nat, s: nat) -> spec_fn(spec_fn(PortRef) -> int) -> bool {
    |env: spec_fn(PortRef) -> int| seq_go(c, s, env(cell_out(fsm)))
}

/// Folding a prefix gives no more than folding the whole.
pub proof fn lemma_prefix_le(op: Fold, s: Seq<nat>, i: int)
    requires
        0 <= i <= s.len(),
    ensures
        fold_with(op, s.take(i)) <= fold_with(op, s),
    decreases s.len() - i,
{
    if i < s.len() {
        lemma_fold_step(op, s, i);
        lemma_prefix_le(op, s, i + 1);
    } else {
        assert(s.take(i) =~= s);
    }
}

/// A prefix of a sequence of latencies adds up to no more than the whole.
pub proof fn lemma_start_le_total(s: Seq<nat>, i: int)
    requires
        0 <= i <= s.len(),
    ensures
        start_of(s, i) <= fold_with(Fold::Sum, s),
    decreases s.len() - i,
{
    if i < s.len() {
        lemma_fold_step(Fold::Sum, s, i);
        lemma_start_le_total(s, i + 1);
    } else {
        assert(s.take(i) =~= s);
    }
}

proof fn lemma_counts_shift(
    cells: Seq<Cell>,
    a: Seq<Assignment>,
    b: Seq<Assignment>,
    n: int,
    fsm: usize,
    group: usize,
    last: nat,
)
    requires
        counts_to(cells, b, 0, fsm, group, last),
        b.len() == 5,
        a.len() == n + 5,
        0 <= n,
        forall|k: int| 0 <= k < 5 ==> a[n + k] == b[k],
    ensures
        counts_to(cells, a, n, fsm, group, last),
{
    assert(a[n] == b[0]);
    assert(a[n + 1] == b[1]);
    assert(a[n + 2] == b[2]);
    assert(a[n + 3] == b[3]);
    assert(a[n + 4] == b[4]);
}

/// Whether the `if` compiler computes the condition group while the counter reads `v`.
pub open spec fn cond_go(c: nat, v: int) -> bool {
    if c == 0 {
        v == 0
    } else {
        v < c
    }
}

/// Whether the `if` compiler asserts the go of a branch of latency `s`, after a
/// condition of latency `c`, while the counter reads `v` and the latched
/// condition reads `stored`; `branch` tells the true branch from the false one.
pub open spec fn if_go(c: nat, s: nat, v: int, stored: int, branch: bool) -> bool {
    &&& c < v
    &&& v < c + 1 + s
    &&& if branch {
        stored != 0
    } else {
        stored == 0
    }
}

pub open spec fn max_nat(a: nat, b: nat) -> nat {
    if a >= b {
        a
    } else {
        b
    }
}

/// The condition group and both branches are static, and the total latency
/// fits in the counter.
pub open spec fn if_static(cond: usize, tbranch: Control, fbranch: Control, groups: Seq<Group>) -> bool {
    &&& cond < groups.len()
    &&& groups[cond as int].static_time is Some
    &&& static_of(tbranch, groups) is Some
    &&& static_of(fbranch, groups) is Some
    &&& groups[cond as int].static_time->0 + 1 + max_nat(
        latency(tbranch, groups),
        latency(fbranch, groups),
    ) < FSM_LIMIT
}

/// A `seq` of these children is compiled: all are static enables and their
/// total latency fits in the counter.
pub open spec fn seq_compilable(stmts: Seq<Control>, groups: Seq<Group>) -> bool {
    all_static(stmts, groups) && fold_with(Fold::Sum, latencies(stmts, groups)) < FSM_LIMIT
}

/// A `par` of these children is compiled: all are static enables and the
/// longest latency fits in the counter.
pub open spec fn par_compilable(stmts: Seq<Control>, groups: Seq<Group>) -> bool {
    all_static(stmts, groups) && fold_with(Fold::Max, latencies(stmts, groups)) < FSM_LIMIT
}

/// The pass: compiles statically timed `seq`, `par` and `if` nodes.
#[derive(Debug, Default)]
pub struct StaticTiming {}

/// The go hole of the group that the `i`-th statement enables.
pub open spec fn child_go(stmts: Seq<Control>, i: int) -> PortRef {
    go_of(stmts[i]->Enable_group)
}

impl StaticTiming {
    pub fn name() -> (r: &'static str)
        ensures
            r@ == "static-timing"@,
    {
        "static-timing"
    }

    pub fn description() -> (r: &'static str)
        ensures
            r@ == "Opportunistically compile timed groups and generate timing information when possible."@,
    {
        "Opportunistically compile timed groups and generate timing information when possible."
    }

    /// Compiles a `par` whose children all enable static groups into one
    /// group that runs as long as the slowest child.
    pub fn finish_par(&mut self, stmts: &Vec<Control>, comp: &mut Component) -> (r: Action)
        ensures
            !par_compilable(stmts@, old(comp).groups@) ==> r is Continue && *final(comp) == *old(comp),
            par_compilable(stmts@, old(comp).groups@) ==> {
                let lat = latencies(stmts@, old(comp).groups@);
                let g = old(comp).groups@.len() as usize;
                let fsm = old(comp).cells@.len() as usize;
                let a = final(comp).groups@[g as int].assignments@;
                &&& emitted(*old(comp), *final(comp), r, fold_with(Fold::Max, lat), "static_par"@)
                &&& a.len() == 5 + stmts@.len()
                &&& cell_of(a[0].dst) >= old(comp).cells@.len()
                &&& counts_to(final(comp).cells@, a, 0, fsm, g, fold_with(Fold::Max, lat))
                &&& forall|i: int|
                    0 <= i < stmts@.len() ==> #[trigger] drives(
                        final(comp).cells@,
                        a[5 + i],
                        child_go(stmts@, i),
                        1,
                        fsm_cmp(fsm, CmpOp::Le, lat[i]),
                    )
            },
    {
        let maybe_max_time = accumulate_static_time(stmts, &comp.groups, Fold::Max);
        let max_time = match maybe_max_time {
            Some(t) => t,
            None => {
                proof {
                    lemma_max_fits(latencies(stmts@, comp.groups@));
                }
                return Action::Continue;
            },
        };
        if max_time >= FSM_LIMIT {
            return Action::Continue;
        }
        let ghost lat = latencies(stmts@, comp.groups@);
        let ghost start = *comp;
        proof {
            lemma2_to64();
            assert(fresh_cells(start.cells@.len(), start.cells@));
        }
        let g = comp.groups.len();
        let fsm = comp.add_cell("fsm", CellType::Reg { width: FSM_WIDTH });
        let on = comp.add_constant(1, 1);
        let last = comp.add_constant(max_time, FSM_WIDTH);
        let mut assigns = counter_assignments(comp, fsm, g, &on, &last, max_time);
        let mut i: usize = 0;
        while i < stmts.len()
            invariant
                0 <= i <= stmts@.len(),
                all_static(stmts@, start.groups@),
                lat == latencies(stmts@, start.groups@),
                comp.groups == start.groups,
                comp.continuous_assignments == start.continuous_assignments,
                comp.name == start.name,
                comp.control == start.control,
                grows(start.cells@, comp.cells@),
                fresh_cells(start.cells@.len(), comp.cells@),
                fsm == start.cells@.len(),
                fsm < comp.cells@.len(),
                g == start.groups@.len(),
                comp.cells@[fsm as int].prototype == (CellType::Reg { width: FSM_WIDTH }),
                is_const(comp.cells@, on, 1),
                is_const(comp.cells@, last, max_time as nat),
                max_time == fold_with(Fold::Max, lat),
                max_time < FSM_LIMIT,
                assigns@.len() == 5 + i,
                cell_of(assigns@[0].dst) >= start.cells@.len(),
                counts_to(comp.cells@, assigns@, 0, fsm, g, max_time as nat),
                forall|j: int|
                    0 <= j < i ==> #[trigger] drives(
                        comp.cells@,
                        assigns@[5 + j],
                        child_go(stmts@, j),
                        1,
                        fsm_cmp(fsm, CmpOp::Le, lat[j]),
                    ),
            decreases stmts@.len() - i,
        {
            assert(static_of(stmts@[i as int], start.groups@) is Some);
            let (h, t) = enable_info(&stmts[i], &comp.groups);
            assert(lat[i as int] == t as nat);
            proof {
                lemma2_to64();
                lemma_fold_step(Fold::Max, lat, i as int);
                lemma_prefix_le(Fold::Max, lat, i as int + 1);
            }
            let ghost before = comp.cells@;
            let ghost prev = assigns@;
            let state_const = comp.add_constant(t, FSM_WIDTH);
            proof {
                lemma_cells_grow(before, comp.cells@);
                lemma_denotes_cmp(comp.cells@, CmpOp::Le, fsm, state_const, t as nat);
                lemma_counts_grow(before, comp.cells@, assigns@, 0, fsm, g, max_time as nat);
            }
            assigns.push(
                Assignment {
                    dst: PortRef::Hole { group: h, hole: Hole::Go },
                    src: on.duplicate(),
                    guard: Guard::cmp(CmpOp::Le, PortRef::Cell { cell: fsm, port: PortName::Out }, state_const),
                },
            );
            assert forall|j: int| 0 <= j < i + 1 implies #[trigger] drives(
                comp.cells@,
                assigns@[5 + j],
                child_go(stmts@, j),
                1,
                fsm_cmp(fsm, CmpOp::Le, lat[j]),
            ) by {
                if j < i {
                    assert(prev[5 + j] == assigns@[5 + j]);
                    assert(drives(before, prev[5 + j], child_go(stmts@, j), 1, fsm_cmp(fsm, CmpOp::Le, lat[j])));
                }
            }
            i += 1;
        }
        let ghost before = comp.cells@;
        add_reset(comp, fsm, &on, &last, max_time);
        proof {
            lemma_cells_grow(before, comp.cells@);
            lemma_counts_grow(before, comp.cells@, assigns@, 0, fsm, g, max_time as nat);
            assert forall|j: int| 0 <= j < stmts@.len() implies #[trigger] drives(
                comp.cells@,
                assigns@[5 + j],
                child_go(stmts@, j),
                1,
                fsm_cmp(fsm, CmpOp::Le, lat[j]),
            ) by {
                assert(drives(before, assigns@[5 + j], child_go(stmts@, j), 1, fsm_cmp(fsm, CmpOp::Le, lat[j])));
            }
        }
        let r = comp.add_group("static_par", Some(max_time), assigns);
        assert(emitted(start, *comp, Action::Change { control: Control::Enable { group: r } }, max_time as nat, "static_par"@));
        Action::Change { control: Control::Enable { group: r } }
    }
}

proof fn lemma_counts_grow(
    cells: Seq<Cell>,
    more: Seq<Cell>,
    a: Seq<Assignment>,
    base: int,
    fsm: usize,
    group: usize,
    last: nat,
)
    requires
        grows(cells, more),
        counts_to(cells, a, base, fsm, group, last),
    ensures
        counts_to(more, a, base, fsm, group, last),
{
    lemma_cells_grow(cells, more);
    assert(more[cell_of(a[base].dst) as int] == cells[cell_of(a[base].dst) as int]);
}

impl StaticTiming {
    /// Compiles a `seq` whose children all enable static groups into one
    /// group that runs the children back to back.
    pub fn finish_seq(&mut self, stmts: &Vec<Control>, comp: &mut Component) -> (r: Action)
        ensures
            !seq_compilable(stmts@, old(comp).groups@) ==> r is Continue && *final(comp) == *old(comp),
            seq_compilable(stmts@, old(comp).groups@) ==> {
                let lat = latencies(stmts@, old(comp).groups@);
                let g = old(comp).groups@.len() as usize;
                let fsm = old(comp).cells@.len() as usize;
                let a = final(comp).groups@[g as int].assignments@;
                let n = stmts@.len() as int;
                &&& emitted(*old(comp), *final(comp), r, fold_with(Fold::Sum, lat), "static_seq"@)
                &&& a.len() == n + 5
                &&& cell_of(a[n].dst) >= old(comp).cells@.len()
                &&& counts_to(final(comp).cells@, a, n, fsm, g, fold_with(Fold::Sum, lat))
                &&& forall|i: int|
                    0 <= i < n ==> #[trigger] drives(
                        final(comp).cells@,
                        a[i],
                        child_go(stmts@, i),
                        1,
                        seq_window(fsm, start_of(lat, i), lat[i]),
                    )
            },
    {
        let total_time = match accumulate_static_time(stmts, &comp.groups, Fold::Sum) {
            Some(t) => t,
            None => return Action::Continue,
        };
        if total_time >= FSM_LIMIT {
            return Action::Continue;
        }
        let ghost lat = latencies(stmts@, comp.groups@);
        let ghost start = *comp;
        proof {
            lemma2_to64();
            assert(fresh_cells(start.cells@.len(), start.cells@));
        }
        let g = comp.groups.len();
        let fsm = comp.add_cell("fsm", CellType::Reg { width: FSM_WIDTH });
        let on = comp.add_constant(1, 1);
        let mut assigns: Vec<Assignment> = Vec::new();
        let mut cur_cycle: u64 = 0;
        let mut i: usize = 0;
        while i < stmts.len()
            invariant
                0 <= i <= stmts@.len(),
                all_static(stmts@, start.groups@),
                lat == latencies(stmts@, start.groups@),
                comp.groups == start.groups,
                comp.continuous_assignments == start.continuous_assignments,
                comp.name == start.name,
                comp.control == start.control,
                grows(start.cells@, comp.cells@),
                fresh_cells(start.cells@.len(), comp.cells@),
                fsm == start.cells@.len(),
                fsm < comp.cells@.len(),
                g == start.groups@.len(),
                comp.cells@[fsm as int].prototype == (CellType::Reg { width: FSM_WIDTH }),
                is_const(comp.cells@, on, 1),
                total_time == fold_with(Fold::Sum, lat),
                total_time < FSM_LIMIT,
                cur_cycle == start_of(lat, i as int),
                assigns@.len() == i,
                forall|j: int|
                    0 <= j < i ==> #[trigger] drives(
                        comp.cells@,
                        assigns@[j],
                        child_go(stmts@, j),
                        1,
                        seq_window(fsm, start_of(lat, j), lat[j]),
                    ),
            decreases stmts@.len() - i,
        {
            assert(static_of(stmts@[i as int], start.groups@) is Some);
            let (h, t) = enable_info(&stmts[i], &comp.groups);
            assert(lat[i as int] == t as nat);
            proof {
                lemma2_to64();
                lemma_fold_step(Fold::Sum, lat, i as int);
                lemma_start_le_total(lat, i as int + 1);
            }
            let ghost before = comp.cells@;
            let ghost prev = assigns@;
            let start_st = comp.add_constant(cur_cycle, FSM_WIDTH);
            let end_st = comp.add_constant(cur_cycle + t, FSM_WIDTH);
            let fsm_out = PortRef::Cell { cell: fsm, port: PortName::Out };
            let go_guard = if t == 1 {
                Guard::cmp(CmpOp::Eq, fsm_out, start_st.duplicate())
            } else if cur_cycle == 0 {
                Guard::cmp(CmpOp::Le, fsm_out, end_st.duplicate())
            } else {
                Guard::and(
                    Guard::cmp(CmpOp::Ge, fsm_out.duplicate(), start_st.duplicate()),
                    Guard::cmp(CmpOp::Lt, fsm_out, end_st.duplicate()),
                )
            };
            proof {
                lemma_cells_grow(before, comp.cells@);
                assert forall|env: spec_fn(PortRef) -> int| #[trigger]
                    consts_hold(comp.cells@, env) implies eval(go_guard, env) == seq_window(
                    fsm,
                    cur_cycle as nat,
                    t as nat,
                )(env) by {
                    reveal_with_fuel(eval, 3);
                    lemma_const_value(comp.cells@, start_st, cur_cycle as nat, env);
                    lemma_const_value(comp.cells@, end_st, (cur_cycle + t) as nat, env);
                }
            }
            assigns.push(Assignment { dst: PortRef::Hole { group: h, hole: Hole::Go }, src: on.duplicate(), guard: go_guard });
            assert forall|j: int| 0 <= j < i + 1 implies #[trigger] drives(
                comp.cells@,
                assigns@[j],
                child_go(stmts@, j),
                1,
                seq_window(fsm, start_of(lat, j), lat[j]),
            ) by {
                if j < i {
                    assert(prev[j] == assigns@[j]);
                    assert(drives(before, prev[j], child_go(stmts@, j), 1, seq_window(fsm, start_of(lat, j), lat[j])));
                }
            }
            cur_cycle = cur_cycle + t;
            i += 1;
        }
        proof {
            assert(lat.take(stmts@.len() as int) =~= lat);
        }
        let ghost before = comp.cells@;
        let last = comp.add_constant(cur_cycle, FSM_WIDTH);
        let mut counter = counter_assignments(comp, fsm, g, &on, &last, cur_cycle);
        let ghost prev = assigns@;
        let ghost cnt = counter@;
        assigns.append(&mut counter);
        proof {
            lemma_counts_shift(comp.cells@, assigns@, cnt, stmts@.len() as int, fsm, g, total_time as nat);
        }
        let ghost before2 = comp.cells@;
        add_reset(comp, fsm, &on, &last, cur_cycle);
        proof {
            lemma_cells_grow(before, before2);
            lemma_cells_grow(before2, comp.cells@);
            lemma_counts_grow(before2, comp.cells@, assigns@, stmts@.len() as int, fsm, g, total_time as nat);
            assert forall|j: int| 0 <= j < stmts@.len() implies #[trigger] drives(
                comp.cells@,
                assigns@[j],
                child_go(stmts@, j),
                1,
                seq_window(fsm, start_of(lat, j), lat[j]),
            ) by {
                assert(prev[j] == assigns@[j]);
                assert(drives(before, prev[j], child_go(stmts@, j), 1, seq_window(fsm, start_of(lat, j), lat[j])));
            }
        }
        let r = comp.add_group("static_seq", Some(cur_cycle), assigns);
        assert(emitted(start, *comp, Action::Change { control: Control::Enable { group: r } }, total_time as nat, "static_seq"@));
        Action::Change { control: Control::Enable { group: r } }
    }
}

impl StaticTiming {
    /// Compiles an `if` whose condition group and branches are all static
    /// into one group: compute the condition, latch it, run one branch.
    pub fn finish_if(
        &mut self,
        port: &PortRef,
        cond: usize,
        tbranch: &Control,
        fbranch: &Control,
        comp: &mut Component,
    ) -> (r: Action)
        ensures
            !if_static(cond, *tbranch, *fbranch, old(comp).groups@) ==> r is Continue && *final(comp)
                == *old(comp),
            if_static(cond, *tbranch, *fbranch, old(comp).groups@) ==> {
                let groups = old(comp).groups@;
                let c = groups[cond as int].static_time->0 as nat;
                let t = latency(*tbranch, groups);
                let f = latency(*fbranch, groups);
                let total = c + 1 + max_nat(t, f);
                let g = groups.len() as usize;
                let fsm = old(comp).cells@.len() as usize;
                let stored = (fsm + 1) as usize;
                let cells = final(comp).cells@;
                let a = final(comp).groups@[g as int].assignments@;
                &&& emitted(*old(comp), *final(comp), r, total, "static_if"@)
                &&& stored < cells.len()
                &&& cell_of(a[0].dst) >= old(comp).cells@.len()
                &&& cells[stored as int].prototype == (CellType::Reg { width: 1 })
                &&& a.len() == 10
                &&& counts_to(cells, a, 0, fsm, g, total)
                &&& drives(cells, a[5], go_of(cond), 1, |env: spec_fn(PortRef) -> int| cond_go(c, env(cell_out(fsm))))
                &&& drives(cells, a[6], cell_port(stored, PortName::WriteEn), 1, fsm_cmp(fsm, CmpOp::Eq, c))
                &&& drives(cells, a[7], go_of(tbranch->Enable_group), 1, |env: spec_fn(PortRef) -> int| if_go(c, t, env(cell_out(fsm)), env(cell_out(stored)), true))
                &&& drives(cells, a[8], go_of(fbranch->Enable_group), 1, |env: spec_fn(PortRef) -> int| if_go(c, f, env(cell_out(fsm)), env(cell_out(stored)), false))
                &&& a[9].dst == cell_port(stored, PortName::In)
                &&& a[9].src == *port
                &&& denotes(cells, a[9].guard, fsm_cmp(fsm, CmpOp::Eq, c))
            },
    {
        if cond >= comp.groups.len() {
            return Action::Continue;
        }
        let ctime = match comp.groups[cond].static_time {
            Some(c) => c,
            None => return Action::Continue,
        };
        let (tru, ttime) = match tbranch {
            Control::Enable { group } => {
                if *group >= comp.groups.len() {
                    return Action::Continue;
                }
                match comp.groups[*group].static_time {
                    Some(t) => (*group, t),
                    None => return Action::Continue,
                }
            },
            _ => return Action::Continue,
        };
        let (fal, ftime) = match fbranch {
            Control::Enable { group } => {
                if *group >= comp.groups.len() {
                    return Action::Continue;
                }
                match comp.groups[*group].static_time {
                    Some(f) => (*group, f),
                    None => return Action::Continue,
                }
            },
            _ => return Action::Continue,
        };
        let longest = if ttime > ftime {
            ttime
        } else {
            ftime
        };
        if ctime >= FSM_LIMIT || longest >= FSM_LIMIT - ctime - 1 {
            return Action::Continue;
        }
        let total = ctime + 1 + longest;
        let ghost start = *comp;
        proof {
            lemma2_to64();
            assert(fresh_cells(start.cells@.len(), start.cells@));
        }
        let g = comp.groups.len();
        let fsm = comp.add_cell("fsm", CellType::Reg { width: FSM_WIDTH });
        let stored = comp.add_cell("cond_stored", CellType::Reg { width: 1 });
        let on = comp.add_constant(1, 1);
        let cond_time_const = comp.add_constant(ctime, FSM_WIDTH);
        let true_end_const = comp.add_constant(ttime + ctime + 1, FSM_WIDTH);
        let false_end_const = comp.add_constant(ftime + ctime + 1, FSM_WIDTH);
        let max_const = if ttime > ftime {
            true_end_const.duplicate()
        } else {
            false_end_const.duplicate()
        };
        let ghost before = comp.cells@;
        let mut assigns = counter_assignments(comp, fsm, g, &on, &max_const, total);
        let ghost cells = comp.cells@;
        proof {
            lemma_cells_grow(before, cells);
        }
        let fsm_out = PortRef::Cell { cell: fsm, port: PortName::Out };
        let stored_out = PortRef::Cell { cell: stored, port: PortName::Out };
        let cond_go_guard = if ctime == 0 {
            Guard::cmp(CmpOp::Eq, fsm_out.duplicate(), cond_time_const.duplicate())
        } else {
            Guard::cmp(CmpOp::Lt, fsm_out.duplicate(), cond_time_const.duplicate())
        };
        let true_go = Guard::and(
            Guard::and(
                Guard::cmp(CmpOp::Gt, fsm_out.duplicate(), cond_time_const.duplicate()),
                Guard::cmp(CmpOp::Lt, fsm_out.duplicate(), true_end_const),
            ),
            Guard::port(stored_out.duplicate()),
        );
        let false_go = Guard::and(
            Guard::and(
                Guard::cmp(CmpOp::Gt, fsm_out.duplicate(), cond_time_const.duplicate()),
                Guard::cmp(CmpOp::Lt, fsm_out.duplicate(), false_end_const),
            ),
            Guard::not(Guard::port(stored_out)),
        );
        let ghost c = ctime as nat;
        proof {
            lemma_denotes_cmp(cells, CmpOp::Eq, fsm, cond_time_const, c);
            assert forall|env: spec_fn(PortRef) -> int| #[trigger] consts_hold(cells, env) implies {
                &&& eval(cond_go_guard, env) == cond_go(c, env(cell_out(fsm)))
                &&& eval(true_go, env) == if_go(c, ttime as nat, env(cell_out(fsm)), env(cell_out(stored)), true)
                &&& eval(false_go, env) == if_go(c, ftime as nat, env(cell_out(fsm)), env(cell_out(stored)), false)
            } by {
                reveal_with_fuel(eval, 4);
                lemma_const_value(cells, cond_time_const, c, env);
                lemma_const_value(cells, true_end_const, (ttime + ctime + 1) as nat, env);
                lemma_const_value(cells, false_end_const, (ftime + ctime + 1) as nat, env);
            }
        }
        assigns.push(Assignment { dst: PortRef::Hole { group: cond, hole: Hole::Go }, src: on.duplicate(), guard: cond_go_guard });
        assigns.push(
            Assignment {
                dst: PortRef::Cell { cell: stored, port: PortName::WriteEn },
                src: on.duplicate(),
                guard: Guard::cmp(CmpOp::Eq, fsm_out.duplicate(), cond_time_const.duplicate()),
            },
        );
        assigns.push(Assignment { dst: PortRef::Hole { group: tru, hole: Hole::Go }, src: on.duplicate(), guard: true_go });
        assigns.push(Assignment { dst: PortRef::Hole { group: fal, hole: Hole::Go }, src: on.duplicate(), guard: false_go });
        assigns.push(
            Assignment {
                dst: PortRef::Cell { cell: stored, port: PortName::In },
                src: port.duplicate(),
                guard: Guard::cmp(CmpOp::Eq, fsm_out, cond_time_const),
            },
        );
        let ghost a = assigns@;
        add_reset(comp, fsm, &on, &max_const, total);
        proof {
            lemma_cells_grow(cells, comp.cells@);
            lemma_counts_grow(cells, comp.cells@, a, 0, fsm, g, total as nat);
            assert(drives(cells, a[5], go_of(cond), 1, |env: spec_fn(PortRef) -> int| cond_go(c, env(cell_out(fsm)))));
            assert(drives(cells, a[6], cell_port(stored, PortName::WriteEn), 1, fsm_cmp(fsm, CmpOp::Eq, c)));
            assert(drives(cells, a[7], go_of(tru), 1, |env: spec_fn(PortRef) -> int| if_go(c, ttime as nat, env(cell_out(fsm)), env(cell_out(stored)), true)));
            assert(drives(cells, a[8], go_of(fal), 1, |env: spec_fn(PortRef) -> int| if_go(c, ftime as nat, env(cell_out(fsm)), env(cell_out(stored)), false)));
            assert(denotes(cells, a[9].guard, fsm_cmp(fsm, CmpOp::Eq, c)));
        }
        let r = comp.add_group("static_if", Some(total), assigns);
        Action::Change { control: Control::Enable { group: r } }
    }
}

/// In a compiled `if`, the two branches are never started on the same cycle,
/// and neither is started while the condition is computed or latched, nor once
/// the counter has reached the group's latency.
pub proof fn lemma_if_one_go(c: nat, t: nat, f: nat, v: int, stored: int)
    ensures
        !(if_go(c, t, v, stored, true) && if_go(c, f, v, stored, false)),
        v <= c || v >= c + 1 + max_nat(t, f) ==> !if_go(c, t, v, stored, true) && !if_go(
            c,
            f,
            v,
            stored,
            false,
        ),
{
}

/// Start cycles never decrease along a sequence.
pub proof fn lemma_start_mono(s: Seq<nat>, i: int, j: int)
    requires
        0 <= i <= j <= s.len(),
    ensures
        start_of(s, i) <= start_of(s, j),
    decreases j - i,
{
    if i < j {
        lemma_fold_step(Fold::Sum, s, i);
        lemma_start_mono(s, i + 1, j);
    }
}

/// Within the `seq` group's latency, a child's go is asserted exactly on the
/// cycles of its own window, but for one cycle: a first child longer than one
/// cycle is also started on the cycle its window ends.
pub proof fn lemma_seq_go_window(s: Seq<nat>, i: int, v: int)
    requires
        0 <= i < s.len(),
        0 <= v < fold_with(Fold::Sum, s),
        !(start_of(s, i) == 0 && s[i] != 1 && v == s[i]),
    ensures
        seq_go(start_of(s, i), s[i], v) <==> start_of(s, i) <= v < start_of(s, i) + s[i],
{
}

/// The windows of two different children of a `seq` do not overlap.
pub proof fn lemma_seq_windows_disjoint(s: Seq<nat>, i: int, j: int, v: int)
    requires
        0 <= i < j < s.len(),
    ensures
        !(start_of(s, i) <= v < start_of(s, i) + s[i] && start_of(s, j) <= v < start_of(s, j) + s[j]),
{
    lemma_fold_step(Fold::Sum, s, i);
    lemma_start_mono(s, i + 1, j);
}

/// Every cycle within the `seq` group's latency lies in the window of some child.
pub proof fn lemma_seq_windows_cover(s: Seq<nat>, v: int)
    requires
        0 <= v < fold_with(Fold::Sum, s),
    ensures
        exists|i: int| 0 <= i < s.len() && #[trigger] start_of(s, i) <= v < start_of(s, i) + s[i],
    decreases s.len(),
{
    let n = s.len() - 1;
    lemma_fold_step(Fold::Sum, s, n);
    assert(s.take(n + 1) =~= s);
    if v >= start_of(s, n) {
        assert(start_of(s, n) <= v < start_of(s, n) + s[n]);
    } else {
        let p = s.drop_last();
        assert(p.take(n) =~= p);
        assert(s.take(n) =~= p);
        lemma_seq_windows_cover(p, v);
        let i = choose|i: int| 0 <= i < p.len() && #[trigger] start_of(p, i) <= v < start_of(p, i) + p[i];
        assert(p.take(i) =~= s.take(i));
        assert(start_of(s, i) <= v < start_of(s, i) + s[i]);
    }
}

/// Every group handle in `c` points into an arena of `n` groups.
pub open spec fn refs_ok(c: Control, n: nat) -> bool
    decreases c,
{
    match c {
        Control::Sequence { stmts } => forall|i: int|
            0 <= i < stmts@.len() ==> refs_ok(#[trigger] stmts@[i], n),
        Control::Par { stmts } => forall|i: int|
            0 <= i < stmts@.len() ==> refs_ok(#[trigger] stmts@[i], n),
        Control::If { cond, tbranch, fbranch, .. } => cond < n && refs_ok(*tbranch, n) && refs_ok(
            *fbranch,
            n,
        ),
        Control::While { cond, body, .. } => cond < n && refs_ok(*body, n),
        Control::Enable { group } => group < n,
        Control::Disable { group } => group < n,
        Control::Print { .. } => true,
        Control::Empty => true,
    }
}

/// No node of `c` is left that the pass would compile.
pub open spec fn settled(c: Control, groups: Seq<Group>) -> bool
    decreases c,
{
    match c {
        Control::Sequence { stmts } => {
            &&& !seq_compilable(stmts@, groups)
            &&& forall|i: int| 0 <= i < stmts@.len() ==> settled(#[trigger] stmts@[i], groups)
        },
        Control::Par { stmts } => {
            &&& !par_compilable(stmts@, groups)
            &&& forall|i: int| 0 <= i < stmts@.len() ==> settled(#[trigger] stmts@[i], groups)
        },
        Control::If { cond, tbranch, fbranch, .. } => {
            &&& !if_static(cond, *tbranch, *fbranch, groups)
            &&& settled(*tbranch, groups)
            &&& settled(*fbranch, groups)
        },
        Control::While { body, .. } => settled(*body, groups),
        Control::Enable { .. } => true,
        Control::Disable { .. } => true,
        Control::Print { .. } => true,
        Control::Empty => true,
    }
}

/// `a` and `b` are the same tree.
pub open spec fn same_control(a: Control, b: Control) -> bool
    decreases a,
{
    match (a, b) {
        (Control::Sequence { stmts: x }, Control::Sequence { stmts: y }) => {
            &&& x@.len() == y@.len()
            &&& forall|i: int| 0 <= i < x@.len() ==> same_control(#[trigger] x@[i], y@[i])
        },
        (Control::Par { stmts: x }, Control::Par { stmts: y }) => {
            &&& x@.len() == y@.len()
            &&& forall|i: int| 0 <= i < x@.len() ==> same_control(#[trigger] x@[i], y@[i])
        },
        (
            Control::If { port: p, cond: c, tbranch: t, fbranch: f },
            Control::If { port: q, cond: d, tbranch: u, fbranch: g },
        ) => p == q && c == d && same_control(*t, *u) && same_control(*f, *g),
        (Control::While { port: p, cond: c, body: x }, Control::While { port: q, cond: d, body: y }) => p
            == q && c == d && same_control(*x, *y),
        (Control::Enable { group: x }, Control::Enable { group: y }) => x == y,
        (Control::Disable { group: x }, Control::Disable { group: y }) => x == y,
        (Control::Print { var: x }, Control::Print { var: y }) => x == y,
        (Control::Empty, Control::Empty) => true,
        _ => false,
    }
}

proof fn lemma_refs_grow(c: Control, n: nat, m: nat)
    requires
        refs_ok(c, n),
        n <= m,
    ensures
        refs_ok(c, m),
    decreases c,
{
    match c {
        Control::Sequence { stmts } => {
            assert forall|i: int| 0 <= i < stmts@.len() implies refs_ok(#[trigger] stmts@[i], m) by {
                lemma_refs_grow(stmts@[i], n, m);
            }
        },
        Control::Par { stmts } => {
            assert forall|i: int| 0 <= i < stmts@.len() implies refs_ok(#[trigger] stmts@[i], m) by {
                lemma_refs_grow(stmts@[i], n, m);
            }
        },
        Control::If { tbranch, fbranch, .. } => {
            lemma_refs_grow(*tbranch, n, m);
            lemma_refs_grow(*fbranch, n, m);
        },
        Control::While { body, .. } => {
            lemma_refs_grow(*body, n, m);
        },
        _ => {},
    }
}

proof fn lemma_stmts_grow(stmts: Seq<Control>, groups: Seq<Group>, more: Seq<Group>)
    requires
        grows(groups, more),
        forall|i: int| 0 <= i < stmts.len() ==> refs_ok(#[trigger] stmts[i], groups.len()),
    ensures
        latencies(stmts, groups) == latencies(stmts, more),
        all_static(stmts, groups) == all_static(stmts, more),
{
    assert forall|i: int| 0 <= i < stmts.len() implies static_of(#[trigger] stmts[i], groups)
        == static_of(stmts[i], more) by {
        assert(refs_ok(stmts[i], groups.len()));
        if stmts[i] is Enable {
            assert(more[stmts[i]->Enable_group as int] == groups[stmts[i]->Enable_group as int]);
        }
    }
    assert(latencies(stmts, groups) =~= latencies(stmts, more));
}

proof fn lemma_settled_grow(c: Control, groups: Seq<Group>, more: Seq<Group>)
    requires
        grows(groups, more),
        refs_ok(c, groups.len()),
        settled(c, groups),
    ensures
        settled(c, more),
    decreases c,
{
    match c {
        Control::Sequence { stmts } => {
            lemma_stmts_grow(stmts@, groups, more);
            assert forall|i: int| 0 <= i < stmts@.len() implies settled(#[trigger] stmts@[i], more) by {
                lemma_settled_grow(stmts@[i], groups, more);
            }
        },
        Control::Par { stmts } => {
            lemma_stmts_grow(stmts@, groups, more);
            assert forall|i: int| 0 <= i < stmts@.len() implies settled(#[trigger] stmts@[i], more) by {
                lemma_settled_grow(stmts@[i], groups, more);
            }
        },
        Control::If { cond, tbranch, fbranch, .. } => {
            lemma_settled_grow(*tbranch, groups, more);
            lemma_settled_grow(*fbranch, groups, more);
            assert(more[cond as int] == groups[cond as int]);
            assert(refs_ok(*tbranch, groups.len()));
            assert(refs_ok(*fbranch, groups.len()));
            if *tbranch is Enable {
                assert(more[(*tbranch)->Enable_group as int] == groups[(*tbranch)->Enable_group as int]);
            }
            if *fbranch is Enable {
                assert(more[(*fbranch)->Enable_group as int] == groups[(*fbranch)->Enable_group as int]);
            }
        },
        Control::While { body, .. } => {
            lemma_settled_grow(*body, groups, more);
        },
        _ => {},
    }
}

proof fn lemma_same_static(a: Control, b: Control, groups: Seq<Group>)
    requires
        same_control(a, b),
    ensures
        static_of(a, groups) == static_of(b, groups),
        latency(a, groups) == latency(b, groups),
{
}

proof fn lemma_same_stmts(x: Seq<Control>, y: Seq<Control>, groups: Seq<Group>)
    requires
        x.len() == y.len(),
        forall|i: int| 0 <= i < x.len() ==> same_control(#[trigger] x[i], y[i]),
    ensures
        latencies(x, groups) == latencies(y, groups),
        all_static(x, groups) == all_static(y, groups),
{
    assert forall|i: int| #![trigger x[i]] #![trigger y[i]] 0 <= i < x.len() implies static_of(x[i], groups) == static_of(
        y[i],
        groups,
    ) by {
        lemma_same_static(x[i], y[i], groups);
    }
    assert(latencies(x, groups) =~= latencies(y, groups));
}

/// `k.groups[g as int]` is what the `seq` compiler makes of the static enables `rs`:
/// back-to-back go windows, a counter up to the total latency, and the
/// counter's reset among the continuous assignments.
pub open spec fn seq_group(k: Component, g: usize, rs: Seq<Control>) -> bool {
    let cells = k.cells@;
    let a = k.groups@[g as int].assignments@;
    let n = rs.len() as int;
    let lat = latencies(rs, k.groups@);
    let fsm = cell_of(a[n + 2].dst);
    let total = fold_with(Fold::Sum, lat);
    &&& a.len() == n + 5
    &&& fsm < cells.len()
    &&& cells[fsm as int].prototype == (CellType::Reg { width: FSM_WIDTH })
    &&& counts_to(cells, a, n, fsm, g, total)
    &&& forall|i: int|
        0 <= i < n ==> #[trigger] drives(
            cells,
            a[i],
            child_go(rs, i),
            1,
            seq_window(fsm, start_of(lat, i), lat[i]),
        )
    &&& exists|b: int| #[trigger] resets(cells, k.continuous_assignments@, b, fsm, total)
}

/// `k.groups[g as int]` is what the `par` compiler makes of the static enables `rs`:
/// a counter up to the longest latency, each child started while the counter
/// is within its latency, and the counter's reset among the continuous
/// assignments.
pub open spec fn par_group(k: Component, g: usize, rs: Seq<Control>) -> bool {
    let cells = k.cells@;
    let a = k.groups@[g as int].assignments@;
    let n = rs.len() as int;
    let lat = latencies(rs, k.groups@);
    let fsm = cell_of(a[2].dst);
    let total = fold_with(Fold::Max, lat);
    &&& a.len() == 5 + n
    &&& fsm < cells.len()
    &&& cells[fsm as int].prototype == (CellType::Reg { width: FSM_WIDTH })
    &&& counts_to(cells, a, 0, fsm, g, total)
    &&& forall|i: int|
        0 <= i < n ==> #[trigger] drives(cells, a[5 + i], child_go(rs, i), 1, fsm_cmp(fsm, CmpOp::Le, lat[i]))
    &&& exists|b: int| #[trigger] resets(cells, k.continuous_assignments@, b, fsm, total)
}

/// `k.groups[g as int]` is what the `if` compiler makes of condition group `cond`,
/// read on `port`, and the static enables `t` and `f`.
pub open spec fn if_group(k: Component, g: usize, port: PortRef, cond: usize, t: Control, f: Control) -> bool {
    let cells = k.cells@;
    let groups = k.groups@;
    let a = groups[g as int].assignments@;
    let c = groups[cond as int].static_time->0 as nat;
    let tl = latency(t, groups);
    let fl = latency(f, groups);
    let total = c + 1 + max_nat(tl, fl);
    let fsm = cell_of(a[2].dst);
    let stored = cell_of(a[9].dst);
    &&& a.len() == 10
    &&& fsm < cells.len()
    &&& cells[fsm as int].prototype == (CellType::Reg { width: FSM_WIDTH })
    &&& stored < cells.len()
    &&& cells[stored as int].prototype == (CellType::Reg { width: 1 })
    &&& counts_to(cells, a, 0, fsm, g, total)
    &&& drives(cells, a[5], go_of(cond), 1, |env: spec_fn(PortRef) -> int| cond_go(c, env(cell_out(fsm))))
    &&& drives(cells, a[6], cell_port(stored, PortName::WriteEn), 1, fsm_cmp(fsm, CmpOp::Eq, c))
    &&& drives(
        cells,
        a[7],
        go_of(t->Enable_group),
        1,
        |env: spec_fn(PortRef) -> int| if_go(c, tl, env(cell_out(fsm)), env(cell_out(stored)), true),
    )
    &&& drives(
        cells,
        a[8],
        go_of(f->Enable_group),
        1,
        |env: spec_fn(PortRef) -> int| if_go(c, fl, env(cell_out(fsm)), env(cell_out(stored)), false),
    )
    &&& a[9].dst == cell_port(stored, PortName::In)
    &&& a[9].src == port
    &&& denotes(cells, a[9].guard, fsm_cmp(fsm, CmpOp::Eq, c))
    &&& exists|b: int| #[trigger] resets(cells, k.continuous_assignments@, b, fsm, total)
}

/// Components that only grew keep a compiled group as it was.
proof fn lemma_group_grow(k: Component, k2: Component, g: usize)
    requires
        grows(k.cells@, k2.cells@),
        grows(k.continuous_assignments@, k2.continuous_assignments@),
        grows(k.groups@, k2.groups@),
        g < k.groups@.len(),
    ensures
        k2.groups@[g as int] == k.groups@[g as int],
        forall|b: int, fsm: usize, total: nat| #[trigger]
            resets(k.cells@, k.continuous_assignments@, b, fsm, total) ==> resets(
                k2.cells@,
                k2.continuous_assignments@,
                b,
                fsm,
                total,
            ),
        forall|i: int| 0 <= i < k.cells@.len() ==> #[trigger] k2.cells@[i] == k.cells@[i],
{
    lemma_cells_grow(k.cells@, k2.cells@);
    assert forall|b: int, fsm: usize, total: nat| #[trigger]
        resets(k.cells@, k.continuous_assignments@, b, fsm, total) implies resets(
        k2.cells@,
        k2.continuous_assignments@,
        b,
        fsm,
        total,
    ) by {
        assert(k2.continuous_assignments@[b] == k.continuous_assignments@[b]);
        assert(k2.continuous_assignments@[b + 1] == k.continuous_assignments@[b + 1]);
    }
}

proof fn lemma_seq_group_grow(k: Component, k2: Component, g: usize, rs: Seq<Control>)
    requires
        seq_group(k, g, rs),
        grows(k.cells@, k2.cells@),
        grows(k.continuous_assignments@, k2.continuous_assignments@),
        grows(k.groups@, k2.groups@),
        g < k.groups@.len(),
        forall|j: int| 0 <= j < rs.len() ==> refs_ok(#[trigger] rs[j], k.groups@.len()),
    ensures
        seq_group(k2, g, rs),
{
    lemma_group_grow(k, k2, g);
    lemma_cells_grow(k.cells@, k2.cells@);
    lemma_stmts_grow(rs, k.groups@, k2.groups@);
    let a = k.groups@[g as int].assignments@;
    let n = rs.len() as int;
    let lat = latencies(rs, k.groups@);
    let fsm = cell_of(a[n + 2].dst);
    let total = fold_with(Fold::Sum, lat);
    lemma_counts_grow(k.cells@, k2.cells@, a, n, fsm, g, total);
    let b = choose|b: int| #[trigger] resets(k.cells@, k.continuous_assignments@, b, fsm, total);
    assert(resets(k2.cells@, k2.continuous_assignments@, b, fsm, total));
    assert forall|i: int| 0 <= i < n implies #[trigger] drives(
        k2.cells@,
        a[i],
        child_go(rs, i),
        1,
        seq_window(fsm, start_of(lat, i), lat[i]),
    ) by {
        assert(drives(k.cells@, a[i], child_go(rs, i), 1, seq_window(fsm, start_of(lat, i), lat[i])));
    }
}

proof fn lemma_par_group_grow(k: Component, k2: Component, g: usize, rs: Seq<Control>)
    requires
        par_group(k, g, rs),
        grows(k.cells@, k2.cells@),
        grows(k.continuous_assignments@, k2.continuous_assignments@),
        grows(k.groups@, k2.groups@),
        g < k.groups@.len(),
        forall|j: int| 0 <= j < rs.len() ==> refs_ok(#[trigger] rs[j], k.groups@.len()),
    ensures
        par_group(k2, g, rs),
{
    lemma_group_grow(k, k2, g);
    lemma_cells_grow(k.cells@, k2.cells@);
    lemma_stmts_grow(rs, k.groups@, k2.groups@);
    let a = k.groups@[g as int].assignments@;
    let n = rs.len() as int;
    let lat = latencies(rs, k.groups@);
    let fsm = cell_of(a[2].dst);
    let total = fold_with(Fold::Max, lat);
    lemma_counts_grow(k.cells@, k2.cells@, a, 0, fsm, g, total);
    let b = choose|b: int| #[trigger] resets(k.cells@, k.continuous_assignments@, b, fsm, total);
    assert(resets(k2.cells@, k2.continuous_assignments@, b, fsm, total));
    assert forall|i: int| 0 <= i < n implies #[trigger] drives(
        k2.cells@,
        a[5 + i],
        child_go(rs, i),
        1,
        fsm_cmp(fsm, CmpOp::Le, lat[i]),
    ) by {
        assert(drives(k.cells@, a[5 + i], child_go(rs, i), 1, fsm_cmp(fsm, CmpOp::Le, lat[i])));
    }
}

proof fn lemma_if_group_grow(k: Component, k2: Component, g: usize, port: PortRef, cond: usize, t: Control, f: Control)
    requires
        if_group(k, g, port, cond, t, f),
        grows(k.cells@, k2.cells@),
        grows(k.continuous_assignments@, k2.continuous_assignments@),
        grows(k.groups@, k2.groups@),
        g < k.groups@.len(),
        cond < k.groups@.len(),
        refs_ok(t, k.groups@.len()),
        refs_ok(f, k.groups@.len()),
    ensures
        if_group(k2, g, port, cond, t, f),
{
    lemma_group_grow(k, k2, g);
    lemma_cells_grow(k.cells@, k2.cells@);
    lemma_static_grow(t, k.groups@, k2.groups@);
    lemma_static_grow(f, k.groups@, k2.groups@);
    assert(k2.groups@[cond as int] == k.groups@[cond as int]);
    let groups = k.groups@;
    let a = groups[g as int].assignments@;
    let c = groups[cond as int].static_time->0 as nat;
    let total = c + 1 + max_nat(latency(t, groups), latency(f, groups));
    let fsm = cell_of(a[2].dst);
    lemma_counts_grow(k.cells@, k2.cells@, a, 0, fsm, g, total);
    let b = choose|b: int| #[trigger] resets(k.cells@, k.continuous_assignments@, b, fsm, total);
    assert(resets(k2.cells@, k2.continuous_assignments@, b, fsm, total));
}

/// `r` is `c` with every node lowered, children first. A `seq`, `par` or `if`
/// whose lowered children are all static enables, with a latency that fits in
/// the counter, becomes the enable of a group at index `n` or later whose
/// `static` attribute is the node's latency: the sum of the children's, their
/// maximum, or the condition's plus one plus the longer branch's. Every other
/// node keeps its kind, its port and condition group, and its lowered children.
pub open spec fn lowered(c: Control, r: Control, n: nat, k: Component) -> bool
    decreases c,
{
    let groups = k.groups@;
    match c {
        Control::Sequence { stmts } => match r {
            Control::Sequence { stmts: rs } => {
                &&& rs@.len() == stmts@.len()
                &&& forall|i: int|
                    0 <= i < stmts@.len() ==> lowered(#[trigger] stmts@[i], rs@[i], n, k)
                &&& !seq_compilable(rs@, groups)
            },
            Control::Enable { group } => {
                &&& n <= group < groups.len()
                &&& exists|rs: Seq<Control>|
                    {
                        &&& #[trigger] seq_compilable(rs, groups)
                        &&& rs.len() == stmts@.len()
                        &&& forall|i: int|
                            0 <= i < stmts@.len() ==> lowered(#[trigger] stmts@[i], rs[i], n, k)
                        &&& groups[group as int].static_time == Some(
                            fold_with(Fold::Sum, latencies(rs, groups)) as u64,
                        )
                        &&& seq_group(k, group, rs)
                    }
            },
            _ => false,
        },
        Control::Par { stmts } => match r {
            Control::Par { stmts: rs } => {
                &&& rs@.len() == stmts@.len()
                &&& forall|i: int|
                    0 <= i < stmts@.len() ==> lowered(#[trigger] stmts@[i], rs@[i], n, k)
                &&& !par_compilable(rs@, groups)
            },
            Control::Enable { group } => {
                &&& n <= group < groups.len()
                &&& exists|rs: Seq<Control>|
                    {
                        &&& #[trigger] par_compilable(rs, groups)
                        &&& rs.len() == stmts@.len()
                        &&& forall|i: int|
                            0 <= i < stmts@.len() ==> lowered(#[trigger] stmts@[i], rs[i], n, k)
                        &&& groups[group as int].static_time == Some(
                            fold_with(Fold::Max, latencies(rs, groups)) as u64,
                        )
                        &&& par_group(k, group, rs)
                    }
            },
            _ => false,
        },
        Control::If { port, cond, tbranch, fbranch } => match r {
            Control::If { port: p, cond: d, tbranch: t, fbranch: f } => {
                &&& p == port
                &&& d == cond
                &&& lowered(*tbranch, *t, n, k)
                &&& lowered(*fbranch, *f, n, k)
                &&& !if_static(cond, *t, *f, groups)
            },
            Control::Enable { group } => {
                &&& n <= group < groups.len()
                &&& exists|t: Control, f: Control|
                    {
                        &&& #[trigger] if_static(cond, t, f, groups)
                        &&& lowered(*tbranch, t, n, k)
                        &&& lowered(*fbranch, f, n, k)
                        &&& groups[group as int].static_time == Some(
                            (groups[cond as int].static_time->0 + 1 + max_nat(
                                latency(t, groups),
                                latency(f, groups),
                            )) as u64,
                        )
                        &&& if_group(k, group, port, cond, t, f)
                    }
            },
            _ => false,
        },
        Control::While { port, cond, body } => match r {
            Control::While { port: p, cond: d, body: b } => p == port && d == cond && lowered(
                *body,
                *b,
                n,
                k,
            ),
            _ => false,
        },
        Control::Enable { group } => r == (Control::Enable { group }),
        Control::Disable { group } => r == (Control::Disable { group }),
        Control::Print { var } => r == (Control::Print { var }),
        Control::Empty => r is Empty,
    }
}

proof fn lemma_static_grow(c: Control, groups: Seq<Group>, more: Seq<Group>)
    requires
        grows(groups, more),
        refs_ok(c, groups.len()),
    ensures
        static_of(c, groups) == static_of(c, more),
        latency(c, groups) == latency(c, more),
{
    if c is Enable {
        assert(more[c->Enable_group as int] == groups[c->Enable_group as int]);
    }
}

/// Lowered children stay lowered, and keep their latencies, when more
/// groups are added.
proof fn lemma_children_grow(stmts: Seq<Control>, rs: Seq<Control>, n: nat, k: Component, k2: Component)
    requires
        grows(k.cells@, k2.cells@),
        grows(k.continuous_assignments@, k2.continuous_assignments@),
        rs.len() == stmts.len(),
        grows(k.groups@, k2.groups@),
        forall|j: int| 0 <= j < rs.len() ==> refs_ok(#[trigger] rs[j], k.groups@.len()),
        forall|j: int| 0 <= j < rs.len() ==> lowered(#[trigger] stmts[j], rs[j], n, k),
    ensures
        forall|j: int| 0 <= j < rs.len() ==> lowered(#[trigger] stmts[j], rs[j], n, k2),
        latencies(rs, k.groups@) == latencies(rs, k2.groups@),
        all_static(rs, k.groups@) == all_static(rs, k2.groups@),
{
    let groups = k.groups@;
    let more = k2.groups@;
    assert forall|j: int| 0 <= j < rs.len() implies lowered(#[trigger] stmts[j], rs[j], n, k2) by {
        assert(refs_ok(rs[j], groups.len()));
        lemma_lowered_grow(stmts[j], rs[j], n, n, k, k2);
    }
    lemma_stmts_grow(rs, groups, more);
}

proof fn lemma_static_refs(c: Control, groups: Seq<Group>)
    requires
        static_of(c, groups) is Some,
    ensures
        refs_ok(c, groups.len()),
{
}

/// A lowering stays one when more groups are added and the bound on the
/// index of the new groups is lowered.
proof fn lemma_lowered_grow(c: Control, r: Control, n: nat, m: nat, k: Component, k2: Component)
    requires
        grows(k.cells@, k2.cells@),
        grows(k.continuous_assignments@, k2.continuous_assignments@),
        lowered(c, r, n, k),
        m <= n,
        grows(k.groups@, k2.groups@),
        refs_ok(r, k.groups@.len()),
    ensures
        lowered(c, r, m, k2),
    decreases c,
{
    let groups = k.groups@;
    let more = k2.groups@;
    match c {
        Control::Sequence { stmts } => match r {
            Control::Sequence { stmts: rs } => {
                assert forall|i: int| 0 <= i < stmts@.len() implies lowered(
                    #[trigger] stmts@[i],
                    rs@[i],
                    m,
                    k2,
                ) by {
                    assert(refs_ok(rs@[i], groups.len()));
                    lemma_lowered_grow(stmts@[i], rs@[i], n, m, k, k2);
                }
                lemma_stmts_grow(rs@, groups, more);
            },
            Control::Enable { group } => {
                let rs = choose|rs: Seq<Control>|
                    {
                        &&& #[trigger] seq_compilable(rs, groups)
                        &&& rs.len() == stmts@.len()
                        &&& forall|i: int|
                            0 <= i < stmts@.len() ==> lowered(#[trigger] stmts@[i], rs[i], n, k)
                        &&& groups[group as int].static_time == Some(
                            fold_with(Fold::Sum, latencies(rs, groups)) as u64,
                        )
                        &&& seq_group(k, group, rs)
                    };
                assert forall|i: int| 0 <= i < rs.len() implies refs_ok(#[trigger] rs[i], groups.len()) by {
                    assert(static_of(rs[i], groups) is Some);
                    lemma_static_refs(rs[i], groups);
                }
                assert forall|i: int| 0 <= i < stmts@.len() implies lowered(#[trigger] stmts@[i], rs[i], m, k2) by {
                    assert(refs_ok(rs[i], groups.len()));
                    lemma_lowered_grow(stmts@[i], rs[i], n, m, k, k2);
                }
                lemma_stmts_grow(rs, groups, more);
                assert(more[group as int] == groups[group as int]);
                assert(seq_compilable(rs, more));
                lemma_seq_group_grow(k, k2, group, rs);
            },
            _ => {},
        },
        Control::Par { stmts } => match r {
            Control::Par { stmts: rs } => {
                assert forall|i: int| 0 <= i < stmts@.len() implies lowered(
                    #[trigger] stmts@[i],
                    rs@[i],
                    m,
                    k2,
                ) by {
                    assert(refs_ok(rs@[i], groups.len()));
                    lemma_lowered_grow(stmts@[i], rs@[i], n, m, k, k2);
                }
                lemma_stmts_grow(rs@, groups, more);
            },
            Control::Enable { group } => {
                let rs = choose|rs: Seq<Control>|
                    {
                        &&& #[trigger] par_compilable(rs, groups)
                        &&& rs.len() == stmts@.len()
                        &&& forall|i: int|
                            0 <= i < stmts@.len() ==> lowered(#[trigger] stmts@[i], rs[i], n, k)
                        &&& groups[group as int].static_time == Some(
                            fold_with(Fold::Max, latencies(rs, groups)) as u64,
                        )
                        &&& par_group(k, group, rs)
                    };
                assert forall|i: int| 0 <= i < rs.len() implies refs_ok(#[trigger] rs[i], groups.len()) by {
                    assert(static_of(rs[i], groups) is Some);
                    lemma_static_refs(rs[i], groups);
                }
                assert forall|i: int| 0 <= i < stmts@.len() implies lowered(#[trigger] stmts@[i], rs[i], m, k2) by {
                    assert(refs_ok(rs[i], groups.len()));
                    lemma_lowered_grow(stmts@[i], rs[i], n, m, k, k2);
                }
                lemma_stmts_grow(rs, groups, more);
                assert(more[group as int] == groups[group as int]);
                assert(par_compilable(rs, more));
                lemma_par_group_grow(k, k2, group, rs);
            },
            _ => {},
        },
        Control::If { port, cond, tbranch, fbranch } => match r {
            Control::If { port: p, cond: d, tbranch: t, fbranch: f } => {
                lemma_lowered_grow(*tbranch, *t, n, m, k, k2);
                lemma_lowered_grow(*fbranch, *f, n, m, k, k2);
                lemma_static_grow(*t, groups, more);
                lemma_static_grow(*f, groups, more);
                assert(more[cond as int] == groups[cond as int]);
            },
            Control::Enable { group } => {
                let (t, f) = choose|t: Control, f: Control|
                    {
                        &&& #[trigger] if_static(cond, t, f, groups)
                        &&& lowered(*tbranch, t, n, k)
                        &&& lowered(*fbranch, f, n, k)
                        &&& groups[group as int].static_time == Some(
                            (groups[cond as int].static_time->0 + 1 + max_nat(
                                latency(t, groups),
                                latency(f, groups),
                            )) as u64,
                        )
                        &&& if_group(k, group, port, cond, t, f)
                    };
                lemma_static_refs(t, groups);
                lemma_static_refs(f, groups);
                lemma_lowered_grow(*tbranch, t, n, m, k, k2);
                lemma_lowered_grow(*fbranch, f, n, m, k, k2);
                lemma_static_grow(t, groups, more);
                lemma_static_grow(f, groups, more);
                assert(more[cond as int] == groups[cond as int]);
                assert(more[group as int] == groups[group as int]);
                assert(if_static(cond, t, f, more));
                lemma_if_group_grow(k, k2, group, port, cond, t, f);
            },
            _ => {},
        },
        Control::While { body, .. } => match r {
            Control::While { body: b, .. } => {
                lemma_lowered_grow(*body, *b, n, m, k, k2);
            },
            _ => {},
        },
        _ => {},
    }
}

/// `stmts` are the children of the `seq` or `par` node `con`.
pub open spec fn has_children(con: Control, stmts: Vec<Control>) -> bool {
    match con {
        Control::Sequence { stmts: s } => s == stmts,
        Control::Par { stmts: s } => s == stmts,
        _ => false,
    }
}

impl StaticTiming {
    /// Compiles the children of a `seq` or `par` node, left to right.
    fn compile_children(&mut self, con: &Control, stmts: &Vec<Control>, comp: &mut Component) -> (r: Vec<Control>)
        requires
            has_children(*con, *stmts),
            refs_ok(*con, old(comp).groups@.len()),
        ensures
            r@.len() == stmts@.len(),
            forall|j: int| 0 <= j < r@.len() ==> settled(#[trigger] r@[j], final(comp).groups@),
            forall|j: int| 0 <= j < r@.len() ==> refs_ok(#[trigger] r@[j], final(comp).groups@.len()),
            forall|j: int|
                0 <= j < r@.len() ==> lowered(
                    #[trigger] stmts@[j],
                    r@[j],
                    old(comp).groups@.len(),
                    *final(comp),
                ),
            grows(old(comp).groups@, final(comp).groups@),
            grows(old(comp).cells@, final(comp).cells@),
            grows(old(comp).continuous_assignments@, final(comp).continuous_assignments@),
            final(comp).name == old(comp).name,
            final(comp).control == old(comp).control,
            (forall|j: int| 0 <= j < stmts@.len() ==> settled(#[trigger] stmts@[j], old(comp).groups@))
                ==> *final(comp) == *old(comp) && forall|j: int|
                0 <= j < r@.len() ==> same_control(#[trigger] r@[j], stmts@[j]),
        decreases *con, 0nat,
    {
        let ghost start = *comp;
        let mut out: Vec<Control> = Vec::new();
        let mut i: usize = 0;
        while i < stmts.len()
            invariant
                0 <= i <= stmts@.len(),
                out@.len() == i,
                has_children(*con, *stmts),
                forall|j: int| 0 <= j < stmts@.len() ==> refs_ok(#[trigger] stmts@[j], start.groups@.len()),
                forall|j: int| 0 <= j < i ==> settled(#[trigger] out@[j], comp.groups@),
                forall|j: int| 0 <= j < i ==> refs_ok(#[trigger] out@[j], comp.groups@.len()),
                forall|j: int|
                    0 <= j < i ==> lowered(#[trigger] stmts@[j], out@[j], start.groups@.len(), *comp),
                grows(start.groups@, comp.groups@),
                grows(start.cells@, comp.cells@),
                grows(start.continuous_assignments@, comp.continuous_assignments@),
                comp.name == start.name,
                comp.control == start.control,
                (forall|j: int| 0 <= j < stmts@.len() ==> settled(#[trigger] stmts@[j], start.groups@))
                    ==> *comp == start && forall|j: int| 0 <= j < i ==> same_control(#[trigger] out@[j], stmts@[j]),
            decreases stmts@.len() - i,
        {
            assert(refs_ok(stmts@[i as int], start.groups@.len()));
            proof {
                lemma_refs_grow(stmts@[i as int], start.groups@.len(), comp.groups@.len());
            }
            let ghost before = *comp;
            let ghost prev = out@;
            let c = self.compile(&stmts[i], comp);
            out.push(c);
            proof {
                assert forall|j: int| 0 <= j < i + 1 implies settled(#[trigger] out@[j], comp.groups@)
                    && refs_ok(out@[j], comp.groups@.len()) && lowered(
                    stmts@[j],
                    out@[j],
                    start.groups@.len(),
                    *comp,
                ) by {
                    if j < i {
                        assert(prev[j] == out@[j]);
                        lemma_settled_grow(prev[j], before.groups@, comp.groups@);
                        lemma_refs_grow(prev[j], before.groups@.len(), comp.groups@.len());
                        assert(lowered(stmts@[j], prev[j], start.groups@.len(), before));
                        lemma_lowered_grow(stmts@[j], prev[j], start.groups@.len(), start.groups@.len(), before, *comp);
                    } else {
                        lemma_lowered_grow(stmts@[j], out@[j], before.groups@.len(), start.groups@.len(), *comp, *comp);
                    }
                }
            }
            i += 1;
        }
        out
    }

    /// Runs the pass over `con` bottom-up: children first, then the node
    /// itself, which is compiled when all its children have become static
    /// enables.
    pub fn compile(&mut self, con: &Control, comp: &mut Component) -> (r: Control)
        requires
            refs_ok(*con, old(comp).groups@.len()),
        ensures
            settled(r, final(comp).groups@),
            refs_ok(r, final(comp).groups@.len()),
            grows(old(comp).groups@, final(comp).groups@),
            grows(old(comp).cells@, final(comp).cells@),
            grows(old(comp).continuous_assignments@, final(comp).continuous_assignments@),
            final(comp).name == old(comp).name,
            final(comp).control == old(comp).control,
            lowered(*con, r, old(comp).groups@.len(), *final(comp)),
            settled(*con, old(comp).groups@) ==> same_control(r, *con) && *final(comp) == *old(comp),
        decreases *con, 1nat,
    {
        let ghost start = *comp;
        match con {
            Control::Sequence { stmts } => {
                let new_stmts = self.compile_children(con, stmts, comp);
                let ghost mid = *comp;
                proof {
                    if settled(*con, start.groups@) {
                        lemma_same_stmts(new_stmts@, stmts@, comp.groups@);
                    }
                }
                match self.finish_seq(&new_stmts, comp) {
                    Action::Continue => Control::Sequence { stmts: new_stmts },
                    Action::Change { control } => {
                        proof {
                            lemma_children_grow(stmts@, new_stmts@, start.groups@.len(), mid, *comp);
                            assert(seq_compilable(new_stmts@, comp.groups@));
                            assert(mid.groups.len() == mid.groups@.len());
                        }
                        control
                    },
                }
            },
            Control::Par { stmts } => {
                let new_stmts = self.compile_children(con, stmts, comp);
                let ghost mid = *comp;
                proof {
                    if settled(*con, start.groups@) {
                        lemma_same_stmts(new_stmts@, stmts@, comp.groups@);
                    }
                }
                match self.finish_par(&new_stmts, comp) {
                    Action::Continue => Control::Par { stmts: new_stmts },
                    Action::Change { control } => {
                        proof {
                            lemma_children_grow(stmts@, new_stmts@, start.groups@.len(), mid, *comp);
                            assert(par_compilable(new_stmts@, comp.groups@));
                            assert(mid.groups.len() == mid.groups@.len());
                        }
                        control
                    },
                }
            },
            Control::If { port, cond, tbranch, fbranch } => {
                let t = self.compile(tbranch, comp);
                let ghost mid = *comp;
                proof {
                    lemma_refs_grow(**fbranch, start.groups@.len(), comp.groups@.len());
                }
                let f = self.compile(fbranch, comp);
                let ghost pre = *comp;
                proof {
                    lemma_settled_grow(t, mid.groups@, comp.groups@);
                    lemma_refs_grow(t, mid.groups@.len(), comp.groups@.len());
                    lemma_lowered_grow(**tbranch, t, start.groups@.len(), start.groups@.len(), mid, *comp);
                    lemma_lowered_grow(**fbranch, f, mid.groups@.len(), start.groups@.len(), *comp, *comp);
                    if settled(*con, start.groups@) {
                        lemma_same_static(t, **tbranch, comp.groups@);
                        lemma_same_static(f, **fbranch, comp.groups@);
                    }
                }
                match self.finish_if(port, *cond, &t, &f, comp) {
                    Action::Continue => Control::If {
                        port: port.duplicate(),
                        cond: *cond,
                        tbranch: Box::new(t),
                        fbranch: Box::new(f),
                    },
                    Action::Change { control } => {
                        proof {
                            lemma_lowered_grow(**tbranch, t, start.groups@.len(), start.groups@.len(), pre, *comp);
                            lemma_lowered_grow(**fbranch, f, start.groups@.len(), start.groups@.len(), pre, *comp);
                            lemma_static_grow(t, pre.groups@, comp.groups@);
                            lemma_static_grow(f, pre.groups@, comp.groups@);
                            assert(comp.groups@[*cond as int] == pre.groups@[*cond as int]);
                            assert(if_static(*cond, t, f, comp.groups@));
                            assert(pre.groups.len() == pre.groups@.len());
                        }
                        control
                    },
                }
            },
            Control::While { port, cond, body } => {
                let b = self.compile(body, comp);
                Control::While { port: port.duplicate(), cond: *cond, body: Box::new(b) }
            },
            Control::Enable { group } => Control::Enable { group: *group },
            Control::Disable { group } => Control::Disable { group: *group },
            Control::Print { var } => Control::Print { var: var.clone() },
            Control::Empty => Control::Empty,
        }
    }

    /// Runs the pass over the control program of `comp`. A program that
    /// names a group the component does not have is a fatal error: the
    /// component is then left as it was.
    pub fn run(&mut self, comp: &mut Component) -> (r: Result<(), PassError>)
        ensures
            r is Err <==> !refs_ok(old(comp).control, old(comp).groups@.len()),
            r is Err ==> r == Err::<(), PassError>(PassError::MissingGroup) && *final(comp) == *old(comp),
            r is Ok ==> {
                &&& settled(final(comp).control, final(comp).groups@)
                &&& refs_ok(final(comp).control, final(comp).groups@.len())
                &&& grows(old(comp).groups@, final(comp).groups@)
                &&& grows(old(comp).cells@, final(comp).cells@)
                &&& grows(old(comp).continuous_assignments@, final(comp).continuous_assignments@)
                &&& final(comp).name == old(comp).name
                &&& lowered(old(comp).control, final(comp).control, old(comp).groups@.len(), *final(comp))
            },
            r is Ok && settled(old(comp).control, old(comp).groups@) ==> {
                &&& same_control(final(comp).control, old(comp).control)
                &&& final(comp).groups == old(comp).groups
                &&& final(comp).cells == old(comp).cells
                &&& final(comp).continuous_assignments == old(comp).continuous_assignments
            },
    {
        if !refs_valid(&comp.control, comp.groups.len()) {
            return Err(PassError::MissingGroup);
        }
        let mut con = Control::Empty;
        std::mem::swap(&mut con, &mut comp.control);
        let r = self.compile(&con, comp);
        let ghost mid = *comp;
        comp.control = r;
        proof {
            lemma_lowered_grow(con, comp.control, old(comp).groups@.len(), old(comp).groups@.len(), mid, *comp);
        }
        Ok(())
    }
}

/// Fatal errors of the pass.
#[derive(Clone, Copy, Debug, PartialEq, Eq, Structural)]
pub enum PassError {
    /// The control program names a group that the component does not have.
    MissingGroup,
}

/// Whether every group handle in `c` is below `n`.
pub fn refs_valid(c: &Control, n: usize) -> (r: bool)
    ensures
        r == refs_ok(*c, n as nat),
    decreases *c,
{
    match c {
        Control::Sequence { stmts } | Control::Par { stmts } => {
            let mut i: usize = 0;
            while i < stmts.len()
                invariant
                    0 <= i <= stmts@.len(),
                    *c matches Control::Sequence { stmts: s } ==> s == *stmts,
                    *c matches Control::Par { stmts: s } ==> s == *stmts,
                    *c is Sequence || *c is Par,
                    forall|j: int| 0 <= j < i ==> refs_ok(#[trigger] stmts@[j], n as nat),
                decreases stmts@.len() - i,
            {
                if !refs_valid(&stmts[i], n) {
                    return false;
                }
                i += 1;
            }
            true
        },
        Control::If { cond, tbranch, fbranch, .. } => *cond < n && refs_valid(tbranch, n) && refs_valid(fbranch, n),
        Control::While { cond, body, .. } => *cond < n && refs_valid(body, n),
        Control::Enable { group } => *group < n,
        Control::Disable { group } => *group < n,
        Control::Print { .. } => true,
        Control::Empty => true,
    }
}

/// The maximum of 64-bit latencies fits in 64 bits.
proof fn lemma_max_fits(s: Seq<nat>)
    requires
        forall|i: int| 0 <= i < s.len() ==> s[i] <= u64::MAX,
    ensures
        fold_with(Fold::Max, s) <= u64::MAX,
    decreases s.len(),
{
    if s.len() > 0 {
        lemma_max_fits(s.drop_last());
    }
}

} // verus!
