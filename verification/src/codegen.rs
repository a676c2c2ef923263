//! The native code generator: lowers the operator tree into a control-flow-
//! graph shaped unit of basic blocks, runnable in process, and proves that a
//! lowered unit reproduces the reference semantics of the tree it came from.

use vstd::prelude::*;
use crate::ast::Ast;
use crate::ast::operators::{Insn, OpS, Operator, ops_view, lemma_ops_view};
use crate::machine::{
    Machine, RunError, RunResult, State, cell, run_ops, lemma_run_ops_fuel, st_of, step_insn,
    step_primitive,
};
use crate::tape::TAPE_LEN;

verus! {

broadcast use {vstd::seq::group_seq_axioms, vstd::std_specs::vec::group_vec_axioms};

/// How a basic block ends: an unconditional jump, a branch on the cell under
/// the cursor (non-zero target first), or a return from the unit.
#[derive(Clone, Copy, Debug, PartialEq, Eq, Structural)]
pub enum Term {
    Jump(usize),
    Branch(usize, usize),
    Ret,
}

/// A basic block: a straight-line run of primitive instructions and a
/// terminator.
#[derive(Debug)]
pub struct Block {
    pub insns: Vec<Insn>,
    pub term: Term,
}

/// The model of a basic block.
#[verifier::ext_equal]
pub struct BlockS {
    pub insns: Seq<Insn>,
    pub term: Term,
}

impl View for Block {
    type V = BlockS;

    open spec fn view(&self) -> BlockS {
        BlockS { insns: self.insns@, term: self.term }
    }
}

/// Model of a block table while it is being wired: a reserved-but-unwritten
/// slot is `None`.
pub open spec fn uview(s: Seq<Option<Block>>) -> Seq<Option<BlockS>> {
    s.map_values(
        |ob: Option<Block>| match ob {
            Option::Some(b) => Some(b@),
            Option::None => None::<BlockS>,
        },
    )
}

/// A control-flow-graph shaped unit: basic blocks addressed by index, entered
/// at block 0. A `None` slot or a reference outside the table is malformed
/// wiring; a lowered unit never holds one on any reachable path.
#[derive(Debug)]
pub struct Unit {
    pub blocks: Vec<Option<Block>>,
}

impl View for Unit {
    type V = Seq<Option<BlockS>>;

    open spec fn view(&self) -> Seq<Option<BlockS>> {
        uview(self.blocks@)
    }
}

/// The configuration a fresh unit run starts from: an all-zero tape of
/// canonical capacity, cursor at its base.
pub open spec fn init_state(input: Seq<u8>) -> State {
    State {
        tape: Seq::new(TAPE_LEN as nat, |i: int| 0u8),
        cursor: 0,
        input,
        output: Seq::empty(),
    }
}

/// The semantics of a unit: runs block `b` from instruction `k`, spending
/// one unit of fuel per instruction and per jump or branch. Malformed wiring
/// is the fatal internal-consistency error.
pub open spec fn run_unit(unit: Seq<Option<BlockS>>, b: int, k: int, st: State, fuel: nat) -> RunResult
    decreases fuel,
{
    if !(0 <= b < unit.len()) {
        RunResult::Failed(RunError::CodegenInternalInconsistency, st)
    } else {
        match unit[b] {
            None => RunResult::Failed(RunError::CodegenInternalInconsistency, st),
            Some(bl) => if 0 <= k < bl.insns.len() {
                if fuel == 0 {
                    RunResult::OutOfFuel(st)
                } else {
                    match step_insn(bl.insns[k], st) {
                        Ok(st2) => run_unit(unit, b, k + 1, st2, (fuel - 1) as nat),
                        Err(e) => RunResult::Failed(e, st),
                    }
                }
            } else if k == bl.insns.len() {
                match bl.term {
                    Term::Ret => RunResult::Done(st, fuel),
                    Term::Jump(t) => if fuel == 0 {
                        RunResult::OutOfFuel(st)
                    } else {
                        run_unit(unit, t as int, 0, st, (fuel - 1) as nat)
                    },
                    Term::Branch(nz, z) => if fuel == 0 {
                        RunResult::OutOfFuel(st)
                    } else {
                        run_unit(
                            unit,
                            if cell(st) != 0 {
                                nz as int
                            } else {
                                z as int
                            },
                            0,
                            st,
                            (fuel - 1) as nat,
                        )
                    },
                }
            } else {
                RunResult::Failed(RunError::CodegenInternalInconsistency, st)
            },
        }
    }
}

/// Where control goes once a lowered fragment has finished: back out of the
/// unit, or to a jump target (one unit of fuel, like any jump).
pub open spec fn run_after(unit: Seq<Option<BlockS>>, after: Term, st: State, fuel: nat) -> RunResult {
    match after {
        Term::Ret => RunResult::Done(st, fuel),
        Term::Jump(t) => if fuel == 0 {
            RunResult::OutOfFuel(st)
        } else {
            run_unit(unit, t as int, 0, st, (fuel - 1) as nat)
        },
        Term::Branch(_, _) => RunResult::Failed(RunError::CodegenInternalInconsistency, st),
    }
}

/// The wiring a lowering produces: `ops` is laid out in `unit` starting in
/// block `b` at instruction `k`, and control afterwards continues as `after`
/// says. Each loop owns a fresh condition block (a bare branch), a body
/// chain that jumps back to the condition, and an exit block.
pub open spec fn compiled(unit: Seq<Option<BlockS>>, ops: Seq<OpS>, b: int, k: int, after: Term) -> bool
    decreases ops,
{
    0 <= b < unit.len() && (unit[b] matches Some(bl) && (if ops.len() == 0 {
        bl.insns.len() == k && bl.term == after
    } else {
        match ops[0] {
            OpS::Simple(x) => 0 <= k < bl.insns.len() && bl.insns[k] == x && compiled(
                unit,
                ops.drop_first(),
                b,
                k + 1,
                after,
            ),
            OpS::Loop(body) => bl.insns.len() == k && (match bl.term {
                Term::Jump(cond) => 0 <= cond < unit.len() && (unit[cond as int] matches Some(cbl)
                    && cbl.insns.len() == 0 && (match cbl.term {
                    Term::Branch(bodyb, exit) => compiled(
                        unit,
                        body,
                        bodyb as int,
                        0,
                        Term::Jump(cond),
                    ) && compiled(unit, ops.drop_first(), exit as int, 0, after),
                    _ => false,
                })),
                _ => false,
            }),
        }
    }))
}

/// A block table extends another when it is at least as long and keeps every
/// written block unchanged.
pub open spec fn extends(u2: Seq<Option<BlockS>>, u1: Seq<Option<BlockS>>) -> bool {
    u1.len() <= u2.len() && forall|i: int| #![trigger u1[i]] #![trigger u2[i]]
        0 <= i < u1.len() && u1[i] is Some ==> u2[i] == u1[i]
}

pub proof fn lemma_extends_trans(
    u3: Seq<Option<BlockS>>,
    u2: Seq<Option<BlockS>>,
    u1: Seq<Option<BlockS>>,
)
    requires
        extends(u3, u2),
        extends(u2, u1),
    ensures
        extends(u3, u1),
{
    assert forall|i: int| 0 <= i < u1.len() && u1[i] is Some implies u3[i] == u1[i] by {
        assert(u2[i] == u1[i]);
        assert(u3[i] == u2[i]);
    }
}

/// Wiring survives extension of the block table.
pub proof fn lemma_compiled_frame(
    u1: Seq<Option<BlockS>>,
    u2: Seq<Option<BlockS>>,
    ops: Seq<OpS>,
    b: int,
    k: int,
    after: Term,
)
    requires
        compiled(u1, ops, b, k, after),
        extends(u2, u1),
    ensures
        compiled(u2, ops, b, k, after),
    decreases ops,
{
    assert(u2[b] == u1[b]);
    if ops.len() != 0 {
        match ops[0] {
            OpS::Simple(_) => {
                lemma_compiled_frame(u1, u2, ops.drop_first(), b, k + 1, after);
            },
            OpS::Loop(body) => {
                match u1[b] {
                    Some(bl) => match bl.term {
                        Term::Jump(cond) => {
                            assert(u2[cond as int] == u1[cond as int]);
                            match u1[cond as int] {
                                Some(cbl) => match cbl.term {
                                    Term::Branch(bodyb, exit) => {
                                        lemma_compiled_frame(
                                            u1,
                                            u2,
                                            body,
                                            bodyb as int,
                                            0,
                                            Term::Jump(cond),
                                        );
                                        lemma_compiled_frame(
                                            u1,
                                            u2,
                                            ops.drop_first(),
                                            exit as int,
                                            0,
                                            after,
                                        );
                                    },
                                    _ => {},
                                },
                                None => {},
                            }
                        },
                        _ => {},
                    },
                    None => {},
                }
            },
        }
    }
}

/// Lowers `ops[i..]` into the open block `cur`, whose instructions so far
/// are `acc`; once the level is fully lowered, `cur`'s chain ends with the
/// `after` terminator. Every block this call writes is fresh except `cur`.
fn lower_level(
    ops: &Vec<Operator>,
    i: usize,
    blocks: &mut Vec<Option<Block>>,
    cur: usize,
    acc: Vec<Insn>,
    after: Term,
)
    requires
        i <= ops@.len(),
        (cur as int) < old(blocks)@.len(),
        uview(old(blocks)@)[cur as int] is None,
    ensures
        extends(uview(final(blocks)@), uview(old(blocks)@)),
        uview(final(blocks)@)[cur as int] matches Some(cb) && cb.insns.len() >= acc@.len()
            && cb.insns.take(acc@.len() as int) == acc@,
        compiled(
            uview(final(blocks)@),
            ops_view(ops@).skip(i as int),
            cur as int,
            acc@.len() as int,
            after,
        ),
        forall|j: int| #![trigger uview(final(blocks)@)[j]]
            0 <= j < old(blocks)@.len() && j != cur && uview(old(blocks)@)[j] is None ==> uview(
                final(blocks)@,
            )[j] is None,
        forall|j: int| #![trigger uview(final(blocks)@)[j]]
            old(blocks)@.len() <= j < final(blocks)@.len() ==> uview(final(blocks)@)[j] is Some,
    decreases ops, ops@.len() - i,
{
    proof {
        lemma_ops_view(ops@);
    }
    let ghost opsv = ops_view(ops@);
    let ghost u0 = uview(blocks@);
    if i == ops.len() {
        let ghost accv = acc@;
        let blk = Block { insns: acc, term: after };
        blocks.set(cur, Some(blk));
        proof {
            assert(uview(blocks@) =~= u0.update(cur as int, Some(blk@)));
            assert(opsv.skip(i as int) =~= Seq::<OpS>::empty());
            assert(accv.take(accv.len() as int) =~= accv);
        }
    } else {
        match &ops[i] {
            Operator::Loop(ast) => {
                let ghost bodyv = ops_view(ast.0@);
                let cond = blocks.len();
                blocks.push(None);
                let bodyb = blocks.len();
                blocks.push(None);
                let exit = blocks.len();
                blocks.push(None);
                let ghost accv = acc@;
                let cur_blk = Block { insns: acc, term: Term::Jump(cond) };
                blocks.set(cur, Some(cur_blk));
                let empty_insns: Vec<Insn> = Vec::new();
                let cond_blk = Block { insns: empty_insns, term: Term::Branch(bodyb, exit) };
                blocks.set(cond, Some(cond_blk));
                let ghost u1 = uview(blocks@);
                proof {
                    assert(u1 =~= u0.push(None::<BlockS>).push(None::<BlockS>).push(
                        None::<BlockS>,
                    ).update(cur as int, Some(cur_blk@)).update(cond as int, Some(cond_blk@)));
                    assert(extends(u1, u0));
                    assert(u1[bodyb as int] is None);
                    assert(u1[exit as int] is None);
                }
                let body_acc: Vec<Insn> = Vec::new();
                lower_level(&ast.0, 0, blocks, bodyb, body_acc, Term::Jump(cond));
                let ghost u2 = uview(blocks@);
                proof {
                    assert(bodyv.skip(0) =~= bodyv);
                    assert(u2[exit as int] is None);
                    assert((exit as int) < u1.len());
                }
                let exit_acc: Vec<Insn> = Vec::new();
                lower_level(ops, i + 1, blocks, exit, exit_acc, after);
                let ghost u3 = uview(blocks@);
                proof {
                    lemma_extends_trans(u2, u1, u0);
                    lemma_extends_trans(u3, u2, u0);
                    lemma_extends_trans(u3, u2, u1);
                    lemma_compiled_frame(u2, u3, bodyv, bodyb as int, 0, Term::Jump(cond));
                    assert(u3[cur as int] == u1[cur as int]);
                    assert(u3[cond as int] == u1[cond as int]);
                    assert(opsv.skip(i as int)[0] == opsv[i as int]);
                    assert(opsv[i as int] == OpS::Loop(bodyv));
                    assert(opsv.skip(i as int).drop_first() =~= opsv.skip(i as int + 1));
                    assert(compiled(u3, opsv.skip(i as int), cur as int, accv.len() as int, after));
                    assert(accv.take(accv.len() as int) =~= accv);
                }
            },
            op => {
                let x = match op {
                    Operator::IncPtr => Insn::IncPtr,
                    Operator::DecPtr => Insn::DecPtr,
                    Operator::Inc => Insn::Inc,
                    Operator::Dec => Insn::Dec,
                    Operator::Out => Insn::Out,
                    _ => Insn::In,
                };
                proof {
                    assert(opsv[i as int] == OpS::Simple(x));
                    assert(opsv.skip(i as int)[0] == opsv[i as int]);
                    assert(opsv.skip(i as int).drop_first() =~= opsv.skip(i as int + 1));
                }
                let ghost accv = acc@;
                let mut acc2 = acc;
                acc2.push(x);
                lower_level(ops, i + 1, blocks, cur, acc2, after);
                proof {
                    let uf = uview(blocks@);
                    let cb = uf[cur as int]->Some_0;
                    assert(cb.insns.take(accv.len() as int + 1) == accv.push(x));
                    assert(cb.insns[accv.len() as int] == accv.push(x)[accv.len() as int]);
                    assert(cb.insns.take(accv.len() as int) =~= accv);
                    assert(compiled(uf, opsv.skip(i as int), cur as int, accv.len() as int, after));
                }
            },
        }
    }
}

impl Unit {
    /// Lowers the operator tree once into a unit: control enters block 0;
    /// each loop gets a fresh condition, body, and exit block, so nesting
    /// composes without cross-loop interference.
    pub fn lower(program: &Ast) -> (u: Unit)
        ensures
            compiled(u@, program@, 0, 0, Term::Ret),
            forall|j: int| 0 <= j < u@.len() ==> #[trigger] u@[j] is Some,
    {
        let mut blocks: Vec<Option<Block>> = Vec::new();
        blocks.push(None);
        proof {
            assert(uview(blocks@) =~= seq![None::<BlockS>]);
        }
        let acc: Vec<Insn> = Vec::new();
        lower_level(program.inner(), 0, &mut blocks, 0, acc, Term::Ret);
        proof {
            assert(ops_view(program.0@).skip(0) =~= program@);
        }
        Unit { blocks }
    }

    /// Runs the unit immediately, in process, against a fresh zeroed tape:
    /// computes exactly `run_unit` from the entry block on `init_state`.
    #[verifier::loop_isolation(false)]
    pub fn run(&self, input: &Vec<u8>, fuel: u64) -> (r: Result<Vec<u8>, RunError>)
        ensures
            ({
                let r0 = run_unit(self@, 0, 0, init_state(input@), fuel as nat);
                match r {
                    Ok(out) => r0 matches RunResult::Done(st2, _) && st2.output == out@,
                    Err(e) => if e == RunError::OutOfFuel {
                        r0 is OutOfFuel
                    } else {
                        r0 matches RunResult::Failed(e2, _) && e2 == e
                    },
                }
            }),
    {
        let mut m = Machine::default();
        let mut pos: usize = 0;
        let mut out: Vec<u8> = Vec::new();
        let mut f = fuel;
        let mut b: usize = 0;
        let mut k: usize = 0;
        let ghost st0 = init_state(input@);
        proof {
            assert(input@.skip(0) =~= input@);
            assert(st_of(m, input@, 0, out@) =~= st0);
        }
        loop
            invariant
                m.wf(),
                pos <= input@.len(),
                run_unit(self@, 0, 0, st0, fuel as nat) == run_unit(
                    self@,
                    b as int,
                    k as int,
                    st_of(m, input@, pos as int, out@),
                    f as nat,
                ),
            decreases f,
        {
            let ghost st_h = st_of(m, input@, pos as int, out@);
            if b >= self.blocks.len() {
                return Err(RunError::CodegenInternalInconsistency);
            }
            match &self.blocks[b] {
                None => {
                    proof {
                        assert(self@[b as int] is None);
                    }
                    return Err(RunError::CodegenInternalInconsistency);
                },
                Some(bl) => {
                    proof {
                        assert(self@[b as int] == Some(bl@));
                    }
                    if k < bl.insns.len() {
                        if f == 0 {
                            return Err(RunError::OutOfFuel);
                        }
                        f = f - 1;
                        let x = bl.insns[k];
                        let r = step_primitive(x, &mut m, input, &mut pos, &mut out);
                        match r {
                            Some(e) => {
                                proof {
                                    assert(run_unit(self@, b as int, k as int, st_h, (f + 1) as nat)
                                        == RunResult::Failed(e, st_h));
                                }
                                return Err(e);
                            },
                            None => {
                                proof {
                                    assert(run_unit(self@, b as int, k as int, st_h, (f + 1) as nat)
                                        == run_unit(
                                        self@,
                                        b as int,
                                        k as int + 1,
                                        st_of(m, input@, pos as int, out@),
                                        f as nat,
                                    ));
                                }
                                k = k + 1;
                            },
                        }
                    } else if k == bl.insns.len() {
                        match bl.term {
                            Term::Ret => {
                                return Ok(out);
                            },
                            Term::Jump(t) => {
                                if f == 0 {
                                    return Err(RunError::OutOfFuel);
                                }
                                f = f - 1;
                                b = t;
                                k = 0;
                            },
                            Term::Branch(nz, z) => {
                                if f == 0 {
                                    return Err(RunError::OutOfFuel);
                                }
                                f = f - 1;
                                let c = m.tape.read(m.pc);
                                b = if c != 0 {
                                    nz
                                } else {
                                    z
                                };
                                k = 0;
                            },
                        }
                    } else {
                        return Err(RunError::CodegenInternalInconsistency);
                    }
                },
            }
        }
    }
}

/// The simulation at the heart of backend equivalence: wherever `ops` is
/// wired into `unit` and the reference run of `ops` does not run out of
/// fuel, some fuel lets the unit reproduce that run exactly — same failure,
/// or same configuration handed to the continuation `after`.
pub proof fn lemma_sim(
    unit: Seq<Option<BlockS>>,
    ops: Seq<OpS>,
    b: int,
    k: int,
    after: Term,
    st: State,
    f1: nat,
    f3: nat,
)
    requires
        compiled(unit, ops, b, k, after),
        !(after is Branch),
        !(run_ops(ops, st, f1) is OutOfFuel),
        run_ops(ops, st, f1) matches RunResult::Done(st2, _) ==> !(run_after(
            unit,
            after,
            st2,
            f3,
        ) is OutOfFuel),
    ensures
        exists|f: nat|
            run_unit(unit, b, k, st, f) == (match run_ops(ops, st, f1) {
                RunResult::Done(st2, _) => run_after(unit, after, st2, f3),
                RunResult::Failed(e, s2) => RunResult::Failed(e, s2),
                RunResult::OutOfFuel(s) => RunResult::OutOfFuel(s),
            }),
    decreases f1,
{
    let target = (match run_ops(ops, st, f1) {
        RunResult::Done(st2, _) => run_after(unit, after, st2, f3),
        RunResult::Failed(e, s2) => RunResult::Failed(e, s2),
        RunResult::OutOfFuel(s) => RunResult::OutOfFuel(s),
    });
    if ops.len() == 0 {
        match after {
            Term::Ret => {
                assert(run_unit(unit, b, k, st, f3) == target);
            },
            Term::Jump(t) => {
                assert(f3 > 0);
                assert(run_unit(unit, b, k, st, f3) == target);
            },
            Term::Branch(_, _) => {},
        }
    } else {
        let f1m = (f1 - 1) as nat;
        match ops[0] {
            OpS::Simple(x) => {
                match step_insn(x, st) {
                    Err(e) => {
                        assert(run_unit(unit, b, k, st, 1) == target);
                    },
                    Ok(st2) => {
                        lemma_sim(unit, ops.drop_first(), b, k + 1, after, st2, f1m, f3);
                        let fr = choose|fr: nat|
                            (#[trigger] run_unit(unit, b, k + 1, st2, fr)) == target;
                        assert(run_unit(unit, b, k, st, fr + 1) == target);
                    },
                }
            },
            OpS::Loop(body) => {
                let bl = unit[b]->Some_0;
                let cond = bl.term->Jump_0;
                let cbl = unit[cond as int]->Some_0;
                let bodyb = cbl.term->Branch_0;
                let exit = cbl.term->Branch_1;
                if cell(st) == 0 {
                    lemma_sim(unit, ops.drop_first(), exit as int, 0, after, st, f1m, f3);
                    let fr = choose|fr: nat|
                        (#[trigger] run_unit(unit, exit as int, 0, st, fr)) == target;
                    assert(run_unit(unit, cond as int, 0, st, fr + 1) == target);
                    assert(run_unit(unit, b, k, st, fr + 2) == target);
                } else {
                    match run_ops(body, st, f1m) {
                        RunResult::OutOfFuel(_) => {},
                        RunResult::Failed(e, s2) => {
                            lemma_sim(unit, body, bodyb as int, 0, Term::Jump(cond), st, f1m, 0);
                            let fb = choose|fb: nat|
                                (#[trigger] run_unit(unit, bodyb as int, 0, st, fb))
                                    == RunResult::Failed(e, s2);
                            assert(run_unit(unit, cond as int, 0, st, fb + 1) == target);
                            assert(run_unit(unit, b, k, st, fb + 2) == target);
                        },
                        RunResult::Done(st2, f2) => {
                            lemma_run_ops_fuel(body, st, f1m);
                            assert(run_ops(ops, st, f1) == run_ops(ops, st2, f2));
                            lemma_sim(unit, ops, b, k, after, st2, f2, f3);
                            let fr = choose|fr: nat|
                                (#[trigger] run_unit(unit, b, k, st2, fr)) == target;
                            assert(fr > 0);
                            assert(run_unit(unit, cond as int, 0, st2, (fr - 1) as nat)
                                == target);
                            assert(run_after(unit, Term::Jump(cond), st2, fr) == target);
                            lemma_sim(
                                unit,
                                body,
                                bodyb as int,
                                0,
                                Term::Jump(cond),
                                st,
                                f1m,
                                fr,
                            );
                            let fb = choose|fb: nat|
                                (#[trigger] run_unit(unit, bodyb as int, 0, st, fb)) == run_after(
                                    unit,
                                    Term::Jump(cond),
                                    st2,
                                    fr,
                                );
                            assert(run_unit(unit, cond as int, 0, st, fb + 1) == target);
                            assert(run_unit(unit, b, k, st, fb + 2) == target);
                        },
                    }
                }
            },
        }
    }
}

/// The two execution strategies agree: a lowered unit, run from its entry
/// block on the same starting configuration, finishes in the same
/// configuration — same output bytes, same tape, same cursor — or fails
/// with the same error, as the reference semantics of the tree it was
/// lowered from.
pub proof fn theorem_backends_agree(
    unit: Seq<Option<BlockS>>,
    prog: Seq<OpS>,
    st: State,
    fuel: nat,
)
    requires
        compiled(unit, prog, 0, 0, Term::Ret),
        !(run_ops(prog, st, fuel) is OutOfFuel),
    ensures
        run_ops(prog, st, fuel) matches RunResult::Done(st2, _) ==> exists|f2: nat|
            run_unit(unit, 0, 0, st, f2) == RunResult::Done(st2, 0),
        run_ops(prog, st, fuel) matches RunResult::Failed(e, s2) ==> exists|f2: nat|
            run_unit(unit, 0, 0, st, f2) == RunResult::Failed(e, s2),
{
    lemma_sim(unit, prog, 0, 0, Term::Ret, st, fuel, 0);
}

/// For any terminating program and any finite input byte sequence, the
/// interpreter's output byte sequence equals the lowered unit's: whenever
/// the reference run of the tree finishes and some run of a unit lowered
/// from it halts, the unit finished too, in the very same configuration.
pub proof fn theorem_outputs_agree(
    unit: Seq<Option<BlockS>>,
    prog: Seq<OpS>,
    input: Seq<u8>,
    f1: nat,
    f2: nat,
)
    requires
        compiled(unit, prog, 0, 0, Term::Ret),
        run_ops(prog, init_state(input), f1) is Done,
        !(run_unit(unit, 0, 0, init_state(input), f2) is OutOfFuel),
    ensures
        run_ops(prog, init_state(input), f1) matches RunResult::Done(st2, _) ==> run_unit(
            unit,
            0,
            0,
            init_state(input),
            f2,
        ) matches RunResult::Done(st3, _) && st3 == st2 && st3.output == st2.output,
{
    let st0 = init_state(input);
    theorem_backends_agree(unit, prog, st0, f1);
    match run_ops(prog, st0, f1) {
        RunResult::Done(st2, _) => {
            let fw = choose|fw: nat|
                (#[trigger] run_unit(unit, 0, 0, st0, fw)) == RunResult::Done(st2, 0);
            lemma_run_unit_unique(unit, 0, 0, st0, fw, f2);
        },
        _ => {},
    }
}

/// Spare fuel does not change a finished or failed unit run.
pub proof fn lemma_run_unit_monotone(
    unit: Seq<Option<BlockS>>,
    b: int,
    k: int,
    st: State,
    fuel: nat,
    extra: nat,
)
    ensures
        run_unit(unit, b, k, st, fuel) matches RunResult::Done(st2, l) ==> run_unit(
            unit,
            b,
            k,
            st,
            fuel + extra,
        ) == RunResult::Done(st2, (l + extra) as nat),
        run_unit(unit, b, k, st, fuel) matches RunResult::Failed(e, s) ==> run_unit(
            unit,
            b,
            k,
            st,
            fuel + extra,
        ) == RunResult::Failed(e, s),
    decreases fuel,
{
    if 0 <= b < unit.len() {
        match unit[b] {
            Some(bl) => {
                if 0 <= k < bl.insns.len() {
                    if fuel != 0 {
                        match step_insn(bl.insns[k], st) {
                            Ok(st2) => lemma_run_unit_monotone(
                                unit,
                                b,
                                k + 1,
                                st2,
                                (fuel - 1) as nat,
                                extra,
                            ),
                            Err(_) => {},
                        }
                    }
                } else if k == bl.insns.len() {
                    if fuel != 0 {
                        match bl.term {
                            Term::Ret => {},
                            Term::Jump(t) => lemma_run_unit_monotone(
                                unit,
                                t as int,
                                0,
                                st,
                                (fuel - 1) as nat,
                                extra,
                            ),
                            Term::Branch(nz, z) => lemma_run_unit_monotone(
                                unit,
                                if cell(st) != 0 {
                                    nz as int
                                } else {
                                    z as int
                                },
                                0,
                                st,
                                (fuel - 1) as nat,
                                extra,
                            ),
                        }
                    }
                }
            },
            None => {},
        }
    }
}

/// Any two unit runs that halt agree on everything but the spare fuel: the
/// unit's outcome and output are well defined, whatever budget it is given.
pub proof fn lemma_run_unit_unique(
    unit: Seq<Option<BlockS>>,
    b: int,
    k: int,
    st: State,
    fa: nat,
    fb: nat,
)
    requires
        !(run_unit(unit, b, k, st, fa) is OutOfFuel),
        !(run_unit(unit, b, k, st, fb) is OutOfFuel),
    ensures
        run_unit(unit, b, k, st, fa) matches RunResult::Done(s1, _) ==> run_unit(
            unit,
            b,
            k,
            st,
            fb,
        ) matches RunResult::Done(s2, _) && s1 == s2,
        run_unit(unit, b, k, st, fa) matches RunResult::Failed(e1, s1) ==> run_unit(
            unit,
            b,
            k,
            st,
            fb,
        ) == RunResult::Failed(e1, s1),
{
    lemma_run_unit_monotone(unit, b, k, st, fa, fb);
    lemma_run_unit_monotone(unit, b, k, st, fb, fa);
    assert(fa + fb == fb + fa);
}

} // verus!
