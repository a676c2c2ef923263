//! Operators: the nodes of the operator tree, and their mathematical model.

use vstd::prelude::*;
use crate::ast::Ast;

verus! {

broadcast use {vstd::seq::group_seq_axioms, vstd::std_specs::vec::group_vec_axioms};

/// A primitive (loop-free) operator. This is both the leaf alphabet of the
/// operator tree and the instruction alphabet of the lowered unit.
#[derive(Clone, Copy, Debug, PartialEq, Eq, Structural)]
pub enum Insn {
    IncPtr,
    DecPtr,
    Inc,
    Dec,
    Out,
    In,
}

/// A node of the operator tree: a primitive operator, or a loop that owns
/// the ordered sequence of its body's operators.
#[derive(Debug)]
pub enum Operator {
    IncPtr,
    DecPtr,
    Inc,
    Dec,
    Out,
    In,
    Loop(Ast),
}

/// The mathematical model of an operator: a primitive instruction or a loop
/// over a sequence of model operators.
pub enum OpS {
    Simple(Insn),
    Loop(Seq<OpS>),
}

/// Model of one operator.
pub open spec fn op_view(op: Operator) -> OpS
    decreases op,
{
    match op {
        Operator::IncPtr => OpS::Simple(Insn::IncPtr),
        Operator::DecPtr => OpS::Simple(Insn::DecPtr),
        Operator::Inc => OpS::Simple(Insn::Inc),
        Operator::Dec => OpS::Simple(Insn::Dec),
        Operator::Out => OpS::Simple(Insn::Out),
        Operator::In => OpS::Simple(Insn::In),
        Operator::Loop(ast) => OpS::Loop(ops_view(ast.0@)),
    }
}

/// Model of a sequence of operators.
pub open spec fn ops_view(s: Seq<Operator>) -> Seq<OpS>
    decreases s,
{
    if s.len() == 0 {
        Seq::empty()
    } else {
        seq![op_view(s[0])] + ops_view(s.drop_first())
    }
}

pub proof fn lemma_ops_view(s: Seq<Operator>)
    ensures
        ops_view(s).len() == s.len(),
        forall|i: int| 0 <= i < s.len() ==> ops_view(s)[i] == op_view(s[i]),
    decreases s.len(),
{
    if s.len() > 0 {
        lemma_ops_view(s.drop_first());
        assert forall|i: int| 0 <= i < s.len() implies ops_view(s)[i] == op_view(s[i]) by {
            if i > 0 {
                assert(ops_view(s)[i] == ops_view(s.drop_first())[i - 1]);
                assert(s.drop_first()[i - 1] == s[i]);
            }
        }
    }
}

/// The bytes that denote primitive operators.
pub open spec fn is_command_byte(b: u8) -> bool {
    b == 62 || b == 60 || b == 43 || b == 45 || b == 46 || b == 44
}

/// The primitive operator a command byte denotes: `>` `<` `+` `-` `.` `,`.
pub open spec fn insn_of_byte(b: u8) -> Insn {
    if b == 62 {
        Insn::IncPtr
    } else if b == 60 {
        Insn::DecPtr
    } else if b == 43 {
        Insn::Inc
    } else if b == 45 {
        Insn::Dec
    } else if b == 46 {
        Insn::Out
    } else {
        Insn::In
    }
}

impl Operator {
    /// The leaf operator a command byte denotes.
    pub fn from_byte(b: u8) -> (op: Operator)
        requires
            is_command_byte(b),
        ensures
            op_view(op) == OpS::Simple(insn_of_byte(b)),
    {
        if b == 62 {
            Operator::IncPtr
        } else if b == 60 {
            Operator::DecPtr
        } else if b == 43 {
            Operator::Inc
        } else if b == 45 {
            Operator::Dec
        } else if b == 46 {
            Operator::Out
        } else {
            Operator::In
        }
    }
}

/// Loop-nesting depth of one model operator.
pub open spec fn op_depth(op: OpS) -> nat
    decreases op,
{
    match op {
        OpS::Simple(_) => 0,
        OpS::Loop(body) => 1 + ops_depth(body),
    }
}

/// Maximum loop-nesting depth over a sequence of model operators.
pub open spec fn ops_depth(s: Seq<OpS>) -> nat
    decreases s,
{
    if s.len() == 0 {
        0
    } else {
        let d1 = ops_depth(s.drop_last());
        let d2 = op_depth(s.last());
        if d1 >= d2 {
            d1
        } else {
            d2
        }
    }
}

} // verus!
