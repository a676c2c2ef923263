//! The reference machine: a big-step, fuel-metered semantics for operator
//! sequences, and a tree-walking interpreter proved to compute exactly that
//! semantics.

use vstd::prelude::*;
use crate::ast::Ast;
use crate::ast::operators::{Insn, OpS, Operator, ops_view, lemma_ops_view};
use crate::tape::{TAPE_LEN, Tape};

verus! {

broadcast use {vstd::seq::group_seq_axioms, vstd::std_specs::vec::group_vec_axioms};

/// Why a run stops before its program ends. `OutOfFuel` reports an exhausted
/// step budget (a run of a possibly non-terminating program must be given
/// one); the others are the fatal machine errors: the cursor moving off the
/// tape, an input operator with no byte left, and — for the lowered unit
/// only — malformed control-flow wiring.
#[derive(Clone, Copy, Debug, PartialEq, Eq, Structural)]
pub enum RunError {
    TapeBoundsExceeded,
    InputExhausted,
    OutOfFuel,
    CodegenInternalInconsistency,
}

/// A machine configuration: the tape, the cursor, the input bytes not yet
/// read, and the output bytes written so far.
#[verifier::ext_equal]
pub struct State {
    pub tape: Seq<u8>,
    pub cursor: nat,
    pub input: Seq<u8>,
    pub output: Seq<u8>,
}

/// The outcome of a fuel-metered run: the budget ran out in the given
/// configuration, or the program ended in a configuration with the given
/// fuel left, or a fatal error struck in the given configuration.
pub enum RunResult {
    OutOfFuel(State),
    Done(State, nat),
    Failed(RunError, State),
}

/// The cell under the cursor.
pub open spec fn cell(st: State) -> u8 {
    st.tape[st.cursor as int]
}

/// Cell increment, wrapping modulo 256.
pub open spec fn wrap_inc(v: u8) -> u8 {
    if v == 255 {
        0
    } else {
        (v + 1) as u8
    }
}

/// Cell decrement, wrapping modulo 256.
pub open spec fn wrap_dec(v: u8) -> u8 {
    if v == 0 {
        255
    } else {
        (v - 1) as u8
    }
}

/// What one primitive operator does to a configuration. Cursor movement is
/// checked: a move that would leave `[0, TAPE_LEN)` is fatal, identically in
/// both execution strategies. Input with nothing left to read is fatal.
pub open spec fn step_insn(x: Insn, st: State) -> Result<State, RunError> {
    match x {
        Insn::IncPtr => if st.cursor + 1 < TAPE_LEN {
            Ok(State { cursor: st.cursor + 1, ..st })
        } else {
            Err(RunError::TapeBoundsExceeded)
        },
        Insn::DecPtr => if st.cursor > 0 {
            Ok(State { cursor: (st.cursor - 1) as nat, ..st })
        } else {
            Err(RunError::TapeBoundsExceeded)
        },
        Insn::Inc => Ok(
            State { tape: st.tape.update(st.cursor as int, wrap_inc(cell(st))), ..st },
        ),
        Insn::Dec => Ok(
            State { tape: st.tape.update(st.cursor as int, wrap_dec(cell(st))), ..st },
        ),
        Insn::Out => Ok(State { output: st.output.push(cell(st)), ..st }),
        Insn::In => if st.input.len() == 0 {
            Err(RunError::InputExhausted)
        } else {
            Ok(
                State {
                    tape: st.tape.update(st.cursor as int, st.input[0]),
                    input: st.input.drop_first(),
                    ..st
                },
            )
        },
    }
}

/// The reference semantics: runs `ops` from `st`, spending one unit of fuel
/// per primitive operator and per loop test. A loop runs its body while the
/// cell under the cursor is non-zero, testing before each iteration.
pub open spec fn run_ops(ops: Seq<OpS>, st: State, fuel: nat) -> RunResult
    decreases fuel,
{
    if ops.len() == 0 {
        RunResult::Done(st, fuel)
    } else if fuel == 0 {
        RunResult::OutOfFuel(st)
    } else {
        let f1 = (fuel - 1) as nat;
        match ops[0] {
            OpS::Simple(x) => match step_insn(x, st) {
                Ok(st2) => run_ops(ops.drop_first(), st2, f1),
                Err(e) => RunResult::Failed(e, st),
            },
            OpS::Loop(body) => if cell(st) == 0 {
                run_ops(ops.drop_first(), st, f1)
            } else {
                match run_ops(body, st, f1) {
                    RunResult::OutOfFuel(s) => RunResult::OutOfFuel(s),
                    RunResult::Failed(e, s) => RunResult::Failed(e, s),
                    RunResult::Done(st2, f2) => run_ops(
                        ops,
                        st2,
                        if f2 <= f1 {
                            f2
                        } else {
                            f1
                        },
                    ),
                }
            },
        }
    }
}

/// A finished run never has more fuel left than it was given.
pub proof fn lemma_run_ops_fuel(ops: Seq<OpS>, st: State, fuel: nat)
    ensures
        run_ops(ops, st, fuel) matches RunResult::Done(_, l) ==> l <= fuel,
    decreases fuel,
{
    if ops.len() != 0 && fuel != 0 {
        let f1 = (fuel - 1) as nat;
        match ops[0] {
            OpS::Simple(x) => match step_insn(x, st) {
                Ok(st2) => lemma_run_ops_fuel(ops.drop_first(), st2, f1),
                Err(_) => {},
            },
            OpS::Loop(body) => if cell(st) == 0 {
                lemma_run_ops_fuel(ops.drop_first(), st, f1)
            } else {
                match run_ops(body, st, f1) {
                    RunResult::Done(st2, f2) => {
                        let fr = if f2 <= f1 {
                            f2
                        } else {
                            f1
                        };
                        lemma_run_ops_fuel(ops, st2, fr);
                    },
                    _ => {},
                }
            },
        }
    }
}

/// Spare fuel does not change a finished or failed run; it is handed back.
pub proof fn lemma_run_ops_monotone(ops: Seq<OpS>, st: State, fuel: nat, extra: nat)
    ensures
        run_ops(ops, st, fuel) matches RunResult::Done(st2, l) ==> run_ops(
            ops,
            st,
            fuel + extra,
        ) == RunResult::Done(st2, (l + extra) as nat),
        run_ops(ops, st, fuel) matches RunResult::Failed(e, s) ==> run_ops(ops, st, fuel + extra)
            == RunResult::Failed(e, s),
    decreases fuel,
{
    if ops.len() != 0 && fuel != 0 {
        let f1 = (fuel - 1) as nat;
        match ops[0] {
            OpS::Simple(x) => match step_insn(x, st) {
                Ok(st2) => lemma_run_ops_monotone(ops.drop_first(), st2, f1, extra),
                Err(_) => {},
            },
            OpS::Loop(body) => if cell(st) == 0 {
                lemma_run_ops_monotone(ops.drop_first(), st, f1, extra)
            } else {
                match run_ops(body, st, f1) {
                    RunResult::Done(st2, f2) => {
                        lemma_run_ops_fuel(body, st, f1);
                        lemma_run_ops_monotone(body, st, f1, extra);
                        lemma_run_ops_fuel(body, st, f1 + extra);
                        lemma_run_ops_monotone(ops, st2, f2, extra);
                    },
                    RunResult::Failed(_, _) => {
                        lemma_run_ops_monotone(body, st, f1, extra);
                    },
                    _ => {},
                }
            },
        }
    }
}

/// Any two runs that finish or fail agree on everything but the spare fuel:
/// a program's outcome and output are well defined, whatever budget the run
/// is given.
pub proof fn lemma_run_ops_unique(ops: Seq<OpS>, st: State, fa: nat, fb: nat)
    requires
        !(run_ops(ops, st, fa) is OutOfFuel),
        !(run_ops(ops, st, fb) is OutOfFuel),
    ensures
        run_ops(ops, st, fa) matches RunResult::Done(s1, _) ==> run_ops(
            ops,
            st,
            fb,
        ) matches RunResult::Done(s2, _) && s1 == s2,
        run_ops(ops, st, fa) matches RunResult::Failed(e1, s1) ==> run_ops(ops, st, fb)
            == RunResult::Failed(e1, s1),
{
    lemma_run_ops_monotone(ops, st, fa, fb);
    lemma_run_ops_monotone(ops, st, fb, fa);
    assert(fa + fb == fb + fa);
}

/// The interpreter's own state: cursor plus tape, owned for one run.
pub struct Machine {
    pub pc: usize,
    pub tape: Tape,
}

impl Machine {
    /// Well-formedness: the tape has its canonical capacity and the cursor
    /// is on it.
    pub open spec fn wf(&self) -> bool {
        self.tape@.len() == TAPE_LEN && self.pc < TAPE_LEN
    }
}

impl Default for Machine {
    /// A fresh machine: cursor at zero on an all-zero tape.
    fn default() -> (m: Machine)
        ensures
            m.wf(),
            m.pc == 0,
            forall|i: int| 0 <= i < TAPE_LEN ==> m.tape@[i] == 0u8,
    {
        Machine { pc: 0, tape: Tape::default() }
    }
}

/// The configuration a machine is in, given the whole input, how much of it
/// has been read, and the output so far.
pub open spec fn st_of(m: Machine, input: Seq<u8>, pos: int, out: Seq<u8>) -> State {
    State { tape: m.tape@, cursor: m.pc as nat, input: input.skip(pos), output: out }
}

/// Executes one primitive operator against the machine, reading input at
/// `pos` and appending output to `out`; computes exactly `step_insn`.
pub(crate) fn step_primitive(
    x: Insn,
    m: &mut Machine,
    input: &Vec<u8>,
    pos: &mut usize,
    out: &mut Vec<u8>,
) -> (r: Option<RunError>)
    requires
        old(m).wf(),
        *old(pos) <= input@.len(),
    ensures
        final(m).wf(),
        *old(pos) <= *final(pos) <= input@.len(),
        match step_insn(x, st_of(*old(m), input@, *old(pos) as int, old(out)@)) {
            Ok(st2) => r == None::<RunError>
                && st_of(*final(m), input@, *final(pos) as int, final(out)@) == st2,
            Err(e) => r == Some(e) && *final(m) == *old(m) && *final(pos) == *old(pos)
                && final(out)@ == old(out)@,
        },
{
    let ghost st0 = st_of(*old(m), input@, *old(pos) as int, old(out)@);
    match x {
        Insn::IncPtr => {
            if m.pc + 1 < TAPE_LEN {
                m.pc = m.pc + 1;
                proof {
                    assert(st_of(*m, input@, *pos as int, out@) =~= (State {
                        cursor: st0.cursor + 1,
                        ..st0
                    }));
                }
                None
            } else {
                Some(RunError::TapeBoundsExceeded)
            }
        },
        Insn::DecPtr => {
            if m.pc > 0 {
                m.pc = m.pc - 1;
                proof {
                    assert(st_of(*m, input@, *pos as int, out@) =~= (State {
                        cursor: (st0.cursor - 1) as nat,
                        ..st0
                    }));
                }
                None
            } else {
                Some(RunError::TapeBoundsExceeded)
            }
        },
        Insn::Inc => {
            let v = m.tape.read(m.pc);
            let w = if v == 255 {
                0
            } else {
                v + 1
            };
            m.tape.write(m.pc, w);
            proof {
                assert(st_of(*m, input@, *pos as int, out@) =~= (State {
                    tape: st0.tape.update(st0.cursor as int, wrap_inc(cell(st0))),
                    ..st0
                }));
            }
            None
        },
        Insn::Dec => {
            let v = m.tape.read(m.pc);
            let w = if v == 0 {
                255
            } else {
                v - 1
            };
            m.tape.write(m.pc, w);
            proof {
                assert(st_of(*m, input@, *pos as int, out@) =~= (State {
                    tape: st0.tape.update(st0.cursor as int, wrap_dec(cell(st0))),
                    ..st0
                }));
            }
            None
        },
        Insn::Out => {
            let v = m.tape.read(m.pc);
            out.push(v);
            proof {
                assert(st_of(*m, input@, *pos as int, out@) =~= (State {
                    output: st0.output.push(cell(st0)),
                    ..st0
                }));
            }
            None
        },
        Insn::In => {
            if *pos < input.len() {
                let b = input[*pos];
                m.tape.write(m.pc, b);
                *pos = *pos + 1;
                proof {
                    assert(input@.skip(*pos as int) =~= st0.input.drop_first());
                    assert(st_of(*m, input@, *pos as int, out@) =~= (State {
                        tape: st0.tape.update(st0.cursor as int, st0.input[0]),
                        input: st0.input.drop_first(),
                        ..st0
                    }));
                }
                None
            } else {
                proof {
                    assert(st0.input.len() == 0);
                }
                Some(RunError::InputExhausted)
            }
        },
    }
}

impl Machine {
    /// Runs one operator sequence to completion, error, or fuel exhaustion;
    /// computes exactly `run_ops` on the machine's configuration.
    #[verifier::loop_isolation(false)]
    fn run_seq(
        &mut self,
        ops: &Vec<Operator>,
        input: &Vec<u8>,
        pos: &mut usize,
        out: &mut Vec<u8>,
        fuel: u64,
    ) -> (r: (Option<RunError>, u64))
        requires
            old(self).wf(),
            *old(pos) <= input@.len(),
        ensures
            final(self).wf(),
            *old(pos) <= *final(pos) <= input@.len(),
            r.1 <= fuel,
            ({
                let r0 = run_ops(
                    ops_view(ops@),
                    st_of(*old(self), input@, *old(pos) as int, old(out)@),
                    fuel as nat,
                );
                let stf = st_of(*final(self), input@, *final(pos) as int, final(out)@);
                match r.0 {
                    None => r0 == RunResult::Done(stf, r.1 as nat),
                    Some(e) => if e == RunError::OutOfFuel {
                        r0 == RunResult::OutOfFuel(stf)
                    } else {
                        r0 == RunResult::Failed(e, stf)
                    },
                }
            }),
        decreases fuel,
    {
        let ghost st0 = st_of(*old(self), input@, *old(pos) as int, old(out)@);
        let ghost opsv = ops_view(ops@);
        let ghost f0 = fuel as nat;
        let mut f = fuel;
        let mut i: usize = 0;
        proof {
            lemma_ops_view(ops@);
            assert(opsv.skip(0) =~= opsv);
        }
        while i < ops.len()
            invariant
                i <= ops@.len(),
                self.wf(),
                *old(pos) <= *pos <= input@.len(),
                f <= fuel,
                run_ops(opsv, st0, f0) == run_ops(
                    opsv.skip(i as int),
                    st_of(*self, input@, *pos as int, out@),
                    f as nat,
                ),
            decreases ops@.len() - i, f,
        {
            let ghost st_h = st_of(*self, input@, *pos as int, out@);
            proof {
                assert(opsv.skip(i as int)[0] == opsv[i as int]);
                assert(opsv.skip(i as int).drop_first() =~= opsv.skip(i as int + 1));
                assert(opsv.skip(i as int).len() > 0);
            }
            if f == 0 {
                proof {
                    assert(run_ops(opsv.skip(i as int), st_h, 0) == RunResult::OutOfFuel(st_h));
                }
                return (Some(RunError::OutOfFuel), 0);
            }
            f = f - 1;
            match &ops[i] {
                Operator::Loop(ast) => {
                    let ghost bodyv = ops_view(ast.0@);
                    let c = self.tape.read(self.pc);
                    if c == 0 {
                        proof {
                            assert(run_ops(opsv.skip(i as int), st_h, (f + 1) as nat) == run_ops(
                                opsv.skip(i as int + 1),
                                st_h,
                                f as nat,
                            ));
                        }
                        i = i + 1;
                    } else {
                        let ghost fb = f as nat;
                        let rr = self.run_seq(&ast.0, input, pos, out, f);
                        f = rr.1;
                        let ghost st_n = st_of(*self, input@, *pos as int, out@);
                        proof {
                            lemma_run_ops_fuel(bodyv, st_h, fb);
                        }
                        match rr.0 {
                            Some(e) => {
                                proof {
                                    if e == RunError::OutOfFuel {
                                        assert(run_ops(opsv.skip(i as int), st_h, fb + 1)
                                            == RunResult::OutOfFuel(st_n));
                                    } else {
                                        assert(run_ops(opsv.skip(i as int), st_h, fb + 1)
                                            == RunResult::Failed(e, st_n));
                                    }
                                }
                                return (Some(e), f);
                            },
                            None => {
                                proof {
                                    assert(run_ops(bodyv, st_h, fb) == RunResult::Done(
                                        st_n,
                                        f as nat,
                                    ));
                                    assert(run_ops(opsv.skip(i as int), st_h, fb + 1) == run_ops(
                                        opsv.skip(i as int),
                                        st_n,
                                        f as nat,
                                    ));
                                }
                            },
                        }
                    }
                },
                op => {
                    let x = match op {
                        Operator::IncPtr => Insn::IncPtr,
                        Operator::DecPtr => Insn::DecPtr,
                        Operator::Inc => Insn::Inc,
                        Operator::Dec => Insn::Dec,
                        Operator::Out => Insn::Out,
                        _ => Insn::In,
                    };
                    proof {
                        assert(opsv[i as int] == OpS::Simple(x));
                    }
                    let r = step_primitive(x, self, input, pos, out);
                    let ghost st_n = st_of(*self, input@, *pos as int, out@);
                    match r {
                        Some(e) => {
                            proof {
                                assert(run_ops(opsv.skip(i as int), st_h, (f + 1) as nat)
                                    == RunResult::Failed(e, st_h));
                            }
                            return (Some(e), f);
                        },
                        None => {
                            proof {
                                assert(run_ops(opsv.skip(i as int), st_h, (f + 1) as nat)
                                    == run_ops(opsv.skip(i as int + 1), st_n, f as nat));
                            }
                            i = i + 1;
                        },
                    }
                },
            }
        }
        proof {
            assert(opsv.skip(ops@.len() as int) =~= Seq::<OpS>::empty());
        }
        (None, f)
    }

    /// Runs a whole program against this machine with the given input bytes
    /// and step budget. Returns the output bytes on normal termination, and
    /// otherwise the fatal error (or `OutOfFuel` when the budget ran out);
    /// in every case the machine and the result are exactly what the
    /// reference semantics `run_ops` prescribes.
    pub fn run(&mut self, program: &Ast, input: &Vec<u8>, fuel: u64) -> (r: Result<
        Vec<u8>,
        RunError,
    >)
        requires
            old(self).wf(),
        ensures
            final(self).wf(),
            ({
                let r0 = run_ops(
                    program@,
                    State {
                        tape: old(self).tape@,
                        cursor: old(self).pc as nat,
                        input: input@,
                        output: Seq::empty(),
                    },
                    fuel as nat,
                );
                match r {
                    Ok(out) => r0 matches RunResult::Done(st2, _) && st2.tape == final(self).tape@ && st2.cursor == final(self).pc as nat && st2.output == out@,
                    Err(e) => if e == RunError::OutOfFuel {
                        r0 matches RunResult::OutOfFuel(st2) && st2.tape == final(self).tape@
                            && st2.cursor == final(self).pc as nat
                    } else {
                        r0 matches RunResult::Failed(e2, st2) && e2 == e && st2.tape == final(self).tape@ && st2.cursor == final(self).pc as nat
                    },
                }
            }),
    {
        let mut pos: usize = 0;
        let mut out: Vec<u8> = Vec::new();
        proof {
            assert(input@.skip(0) =~= input@);
            assert(st_of(*old(self), input@, 0, Seq::empty()) =~= (State {
                tape: old(self).tape@,
                cursor: old(self).pc as nat,
                input: input@,
                output: Seq::empty(),
            }));
        }
        let rr = self.run_seq(&program.0, input, &mut pos, &mut out, fuel);
        match rr.0 {
            None => Ok(out),
            Some(e) => Err(e),
        }
    }
}

/// `n` successive wrapped increments of a cell.
pub open spec fn iter_inc(v: u8, n: nat) -> u8
    decreases n,
{
    if n == 0 {
        v
    } else {
        wrap_inc(iter_inc(v, (n - 1) as nat))
    }
}

proof fn lemma_iter_inc(v: u8, n: nat)
    ensures
        iter_inc(v, n) == ((v + n) % 256) as u8,
    decreases n,
{
    if n > 0 {
        lemma_iter_inc(v, (n - 1) as nat);
    }
}

/// Incrementing a cell 256 times returns it to its original value; this is
/// the increment the `Inc` operator performs on the cell under the cursor.
pub proof fn theorem_inc_wraps_around(v: u8)
    ensures
        iter_inc(v, 256) == v,
{
    lemma_iter_inc(v, 256);
}

/// Decrementing once from 0 yields 255; this is the decrement the `Dec`
/// operator performs on the cell under the cursor.
pub proof fn theorem_dec_wraps_around()
    ensures
        wrap_dec(0) == 255,
{
}

/// A loop whose cell is 0 on entry executes its body zero times: one test,
/// no other fuel spent, configuration unchanged.
pub proof fn theorem_loop_zero_skips(body: Seq<OpS>, st: State, fuel: nat)
    requires
        fuel >= 1,
        cell(st) == 0,
    ensures
        run_ops(seq![OpS::Loop(body)], st, fuel) == RunResult::Done(st, (fuel - 1) as nat),
{
    let ops = seq![OpS::Loop(body)];
    assert(ops[0] == OpS::Loop(body));
    assert(ops.drop_first() =~= Seq::<OpS>::empty());
    assert(run_ops(Seq::<OpS>::empty(), st, (fuel - 1) as nat) == RunResult::Done(
        st,
        (fuel - 1) as nat,
    ));
}

/// A loop that decrements its own test cell executes its body exactly
/// `cell(st)` times: each of those iterations spends one test and one
/// decrement, a final test sees zero, and the cell ends at 0 with the rest
/// of the configuration unchanged.
pub proof fn theorem_loop_dec_runs_cell_times(st: State, fuel: nat)
    requires
        st.cursor < st.tape.len(),
        fuel >= 2 * cell(st) + 1,
    ensures
        run_ops(seq![OpS::Loop(seq![OpS::Simple(Insn::Dec)])], st, fuel) == RunResult::Done(
            State { tape: st.tape.update(st.cursor as int, 0), ..st },
            (fuel - 2 * cell(st) - 1) as nat,
        ),
    decreases cell(st),
{
    let ops = seq![OpS::Loop(seq![OpS::Simple(Insn::Dec)])];
    let body = seq![OpS::Simple(Insn::Dec)];
    if cell(st) == 0 {
        theorem_loop_zero_skips(body, st, fuel);
        assert(st.tape.update(st.cursor as int, 0) =~= st.tape);
        assert((State { tape: st.tape.update(st.cursor as int, 0), ..st }) =~= st);
    } else {
        let f1 = (fuel - 1) as nat;
        let st1 = State { tape: st.tape.update(st.cursor as int, wrap_dec(cell(st))), ..st };
        assert(body.drop_first() =~= Seq::<OpS>::empty());
        assert(body[0] == OpS::Simple(Insn::Dec));
        assert(ops[0] == OpS::Loop(body));
        assert(step_insn(Insn::Dec, st) == Ok::<State, RunError>(st1));
        assert(run_ops(Seq::<OpS>::empty(), st1, (f1 - 1) as nat) == RunResult::Done(
            st1,
            (f1 - 1) as nat,
        ));
        assert(run_ops(body, st, f1) == RunResult::Done(st1, (f1 - 1) as nat));
        assert(cell(st1) == wrap_dec(cell(st)));
        theorem_loop_dec_runs_cell_times(st1, (f1 - 1) as nat);
        assert(st1.tape.update(st1.cursor as int, 0) =~= st.tape.update(st.cursor as int, 0));
        assert((State { tape: st1.tape.update(st1.cursor as int, 0), ..st1 }) =~= (State {
            tape: st.tape.update(st.cursor as int, 0),
            ..st
        }));
        assert(run_ops(ops, st, fuel) == run_ops(ops, st1, (f1 - 1) as nat));
    }
}

} // verus!
