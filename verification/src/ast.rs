//! The operator tree and its two front ends: a byte-to-token lexer feeding a
//! single-pass builder, and a grammar-driven front end producing a parse tree
//! of Command and Loop nodes. Both are proved to yield the same tree.

pub mod grammar;
pub mod operators;
pub mod tokenizer;

use vstd::prelude::*;
use crate::ast::operators::{Insn, OpS, Operator, op_depth, ops_depth, ops_view, lemma_ops_view};
use crate::ast::tokenizer::Token;

verus! {

broadcast use {vstd::seq::group_seq_axioms, vstd::std_specs::vec::group_vec_axioms};

/// Why a source fails to parse: a close bracket at nesting depth zero, or end
/// of input inside an open loop.
#[derive(Clone, Copy, Debug, PartialEq, Eq, Structural)]
pub enum ParseError {
    UnmatchedClose,
    UnterminatedLoop,
}

/// An ordered sequence of operators: the root of the operator tree.
#[derive(Debug)]
pub struct Ast(pub Vec<Operator>);

impl View for Ast {
    type V = Seq<OpS>;

    open spec fn view(&self) -> Seq<OpS> {
        ops_view(self.0@)
    }
}

/// The instruction a command token denotes (total; bracket and `Nop` tokens
/// have no instruction and map arbitrarily).
pub open spec fn insn_of_token(t: Token) -> Insn {
    match t {
        Token::IncPtr => Insn::IncPtr,
        Token::DecPtr => Insn::DecPtr,
        Token::Inc => Insn::Inc,
        Token::Dec => Insn::Dec,
        Token::Out => Insn::Out,
        Token::In => Insn::In,
        _ => Insn::IncPtr,
    }
}

/// One step of bracket matching. The stack holds one operator sequence per
/// open loop, the innermost last; the bottom element is the root sequence.
pub open spec fn token_parse_step(stack: Seq<Seq<OpS>>, t: Token) -> Result<
    Seq<Seq<OpS>>,
    ParseError,
> {
    match t {
        Token::Nop(_) => Ok(stack),
        Token::JmpFwd => Ok(stack.push(Seq::empty())),
        Token::JmpBck => if stack.len() <= 1 {
            Err(ParseError::UnmatchedClose)
        } else {
            let body = stack.last();
            let rest = stack.drop_last();
            Ok(rest.update(rest.len() - 1, rest.last().push(OpS::Loop(body))))
        },
        _ => Ok(
            stack.update(stack.len() - 1, stack.last().push(OpS::Simple(insn_of_token(t)))),
        ),
    }
}

/// Folds bracket matching over a token stream.
pub open spec fn token_parse_stack(toks: Seq<Token>) -> Result<Seq<Seq<OpS>>, ParseError>
    decreases toks.len(),
{
    if toks.len() == 0 {
        Ok(seq![Seq::<OpS>::empty()])
    } else {
        match token_parse_stack(toks.drop_last()) {
            Ok(stack) => token_parse_step(stack, toks.last()),
            Err(e) => Err(e),
        }
    }
}

/// What a token stream parses to: its operator tree, or the first fatal
/// bracket error. `UnmatchedClose` arises exactly when some prefix closes a
/// loop at depth zero; `UnterminatedLoop` exactly when the end of input is
/// reached with a loop still open.
pub open spec fn token_parse(toks: Seq<Token>) -> Result<Seq<OpS>, ParseError> {
    match token_parse_stack(toks) {
        Ok(stack) => if stack.len() == 1 {
            Ok(stack[0])
        } else {
            Err(ParseError::UnterminatedLoop)
        },
        Err(e) => Err(e),
    }
}

/// A parse error in a prefix is a parse error of the whole stream.
proof fn lemma_token_parse_stack_err(toks: Seq<Token>, i: int, e: ParseError)
    requires
        0 <= i <= toks.len(),
        token_parse_stack(toks.take(i)) == Err::<Seq<Seq<OpS>>, ParseError>(e),
    ensures
        token_parse_stack(toks) == Err::<Seq<Seq<OpS>>, ParseError>(e),
    decreases toks.len(),
{
    if i < toks.len() {
        assert(toks.drop_last().take(i) =~= toks.take(i));
        lemma_token_parse_stack_err(toks.drop_last(), i, e);
    } else {
        assert(toks.take(i) =~= toks);
    }
}

/// The builder stack always keeps its root sequence.
pub proof fn lemma_token_stack_nonempty(toks: Seq<Token>)
    ensures
        token_parse_stack(toks) matches Ok(st) ==> st.len() >= 1,
    decreases toks.len(),
{
    if toks.len() > 0 {
        lemma_token_stack_nonempty(toks.drop_last());
    }
}

/// View of a builder stack.
pub open spec fn opstack_view(s: Seq<Vec<Operator>>) -> Seq<Seq<OpS>> {
    s.map_values(|v: Vec<Operator>| ops_view(v@))
}

impl Ast {
    /// The operator sequence at the root.
    pub fn inner(&self) -> (r: &Vec<Operator>)
        ensures
            r == self.0,
    {
        &self.0
    }

    /// Builds the operator tree from a token stream in a single pass,
    /// resolving bracket matching. A close token with no loop open fails
    /// with `UnmatchedClose`; end of input inside a loop fails with
    /// `UnterminatedLoop`.
    pub fn parse_from_tokenizer(tokens: &Vec<Token>) -> (r: Result<Ast, ParseError>)
        ensures
            (r matches Ok(ast) ==> token_parse(tokens@) == Ok::<Seq<OpS>, ParseError>(ast@)),
            (r matches Err(e) ==> token_parse(tokens@) == Err::<Seq<OpS>, ParseError>(e)),
    {
        let mut stack: Vec<Vec<Operator>> = Vec::new();
        stack.push(Vec::new());
        proof {
            assert(opstack_view(stack@) =~= seq![Seq::<OpS>::empty()]);
            assert(tokens@.take(0) =~= Seq::<Token>::empty());
        }
        let mut i: usize = 0;
        while i < tokens.len()
            invariant
                i <= tokens@.len(),
                stack@.len() >= 1,
                token_parse_stack(tokens@.take(i as int)) == Ok::<Seq<Seq<OpS>>, ParseError>(
                    opstack_view(stack@),
                ),
            decreases tokens@.len() - i,
        {
            let ghost pre = opstack_view(stack@);
            proof {
                assert(tokens@.take(i + 1).drop_last() =~= tokens@.take(i as int));
                assert(tokens@.take(i + 1).last() == tokens@[i as int]);
            }
            match tokens[i] {
                Token::Nop(_) => {},
                Token::JmpFwd => {
                    stack.push(Vec::new());
                    proof {
                        assert(ops_view(Seq::<Operator>::empty()) =~= Seq::<OpS>::empty());
                        assert(opstack_view(stack@) =~= pre.push(Seq::<OpS>::empty()));
                    }
                },
                Token::JmpBck => {
                    if stack.len() == 1 {
                        proof {
                            lemma_token_parse_stack_err(
                                tokens@,
                                i + 1,
                                ParseError::UnmatchedClose,
                            );
                        }
                        return Err(ParseError::UnmatchedClose);
                    }
                    let body = stack.pop().unwrap();
                    let mut top = stack.pop().unwrap();
                    let ghost top0 = top@;
                    top.push(Operator::Loop(Ast(body)));
                    let ghost top1 = top@;
                    stack.push(top);
                    proof {
                        let rest = pre.drop_last();
                        lemma_ops_view(top0);
                        lemma_ops_view(top1);
                        assert(ops_view(top1) =~= ops_view(top0).push(
                            OpS::Loop(pre.last()),
                        ));
                        assert(opstack_view(stack@) =~= rest.update(
                            rest.len() - 1,
                            rest.last().push(OpS::Loop(pre.last())),
                        ));
                    }
                },
                tok => {
                    let mut top = stack.pop().unwrap();
                    let ghost top0 = top@;
                    let leaf = match tok {
                        Token::IncPtr => Operator::IncPtr,
                        Token::DecPtr => Operator::DecPtr,
                        Token::Inc => Operator::Inc,
                        Token::Dec => Operator::Dec,
                        Token::Out => Operator::Out,
                        _ => Operator::In,
                    };
                    top.push(leaf);
                    let ghost top1 = top@;
                    stack.push(top);
                    proof {
                        lemma_ops_view(top0);
                        lemma_ops_view(top1);
                        assert(ops_view(top1) =~= ops_view(top0).push(
                            OpS::Simple(insn_of_token(tokens@[i as int])),
                        ));
                        assert(opstack_view(stack@) =~= pre.update(
                            pre.len() - 1,
                            pre.last().push(OpS::Simple(insn_of_token(tokens@[i as int]))),
                        ));
                    }
                },
            }
            i = i + 1;
        }
        proof {
            assert(tokens@.take(tokens@.len() as int) =~= tokens@);
        }
        if stack.len() == 1 {
            let root = stack.pop().unwrap();
            Ok(Ast(root))
        } else {
            Err(ParseError::UnterminatedLoop)
        }
    }
}

/// Loops still open after `toks`: opens minus closes.
pub open spec fn open_depth(toks: Seq<Token>) -> int
    decreases toks.len(),
{
    if toks.len() == 0 {
        0
    } else {
        open_depth(toks.drop_last()) + (match toks.last() {
            Token::JmpFwd => 1int,
            Token::JmpBck => -1int,
            _ => 0int,
        })
    }
}

/// The program's bracket-nesting depth: the deepest nesting any prefix of
/// the token stream reaches.
pub open spec fn max_depth(toks: Seq<Token>) -> int
    decreases toks.len(),
{
    if toks.len() == 0 {
        0
    } else {
        let m = max_depth(toks.drop_last());
        let d = open_depth(toks);
        if m >= d {
            m
        } else {
            d
        }
    }
}

/// Depth a builder stack accounts for: each sequence sits at its own nesting
/// level, plus whatever loop nesting it already contains.
pub open spec fn stack_depth(stack: Seq<Seq<OpS>>) -> int
    decreases stack.len(),
{
    if stack.len() == 0 {
        0
    } else {
        let m = stack_depth(stack.drop_last());
        let d = stack.len() - 1 + ops_depth(stack.last());
        if m >= d {
            m
        } else {
            d
        }
    }
}

/// Bracket matching's bookkeeping: after any accepted prefix, the stack
/// height is the open-loop count plus one, and the stack accounts for
/// exactly the deepest nesting seen so far.
proof fn lemma_depth_stack(toks: Seq<Token>)
    ensures
        token_parse_stack(toks) matches Ok(st) ==> st.len() == open_depth(toks) + 1
            && stack_depth(st) == max_depth(toks),
    decreases toks.len(),
{
    reveal_with_fuel(stack_depth, 4);
    reveal_with_fuel(ops_depth, 3);
    if toks.len() == 0 {
        let st = seq![Seq::<OpS>::empty()];
        assert(st.drop_last() =~= Seq::<Seq<OpS>>::empty());
        assert(stack_depth(Seq::<Seq<OpS>>::empty()) == 0);
        assert(ops_depth(st.last()) == 0);
        assert(stack_depth(st) == 0);
    } else {
        lemma_depth_stack(toks.drop_last());
        lemma_token_stack_nonempty(toks.drop_last());
        let pref = toks.drop_last();
        let t = toks.last();
        match token_parse_stack(pref) {
            Err(_) => {},
            Ok(st) => {
                assert(max_depth(pref) >= open_depth(pref)) by {
                    if pref.len() > 0 {
                        assert(max_depth(pref) == (if max_depth(pref.drop_last()) >= open_depth(
                            pref,
                        ) {
                            max_depth(pref.drop_last())
                        } else {
                            open_depth(pref)
                        }));
                    }
                }
                match t {
                    Token::Nop(_) => {
                    },
                    Token::JmpFwd => {
                        let st2 = st.push(Seq::<OpS>::empty());
                        assert(st2.drop_last() =~= st);
                        assert(ops_depth(st2.last()) == 0);
                        assert(stack_depth(st2) == (if stack_depth(st) >= st.len() {
                            stack_depth(st)
                        } else {
                            st.len() as int
                        }));
                    },
                    Token::JmpBck => {
                        if st.len() > 1 {
                            let body = st.last();
                            let rest = st.drop_last();
                            let topv = rest.last().push(OpS::Loop(body));
                            let st2 = rest.update(rest.len() - 1, topv);
                            assert(topv.drop_last() =~= rest.last());
                            assert(topv.last() == OpS::Loop(body));
                            assert(op_depth(OpS::Loop(body)) == 1 + ops_depth(body));
                            assert(ops_depth(topv) == (if ops_depth(rest.last()) >= 1 + ops_depth(
                                body,
                            ) {
                                ops_depth(rest.last())
                            } else {
                                1 + ops_depth(body)
                            }));
                            assert(st2.drop_last() =~= rest.drop_last());
                            assert(st2.last() == topv);
                            assert(st.drop_last() =~= rest);
                            assert(st.last() == body);
                            assert(stack_depth(st) == (if stack_depth(rest) >= st.len() - 1
                                + ops_depth(body) {
                                stack_depth(rest)
                            } else {
                                st.len() - 1 + ops_depth(body)
                            }));
                            assert(stack_depth(rest) == (if stack_depth(rest.drop_last())
                                >= rest.len() - 1 + ops_depth(rest.last()) {
                                stack_depth(rest.drop_last())
                            } else {
                                rest.len() - 1 + ops_depth(rest.last())
                            }));
                            assert(stack_depth(st2) == (if stack_depth(st2.drop_last())
                                >= st2.len() - 1 + ops_depth(topv) {
                                stack_depth(st2.drop_last())
                            } else {
                                st2.len() - 1 + ops_depth(topv)
                            }));
                            assert(stack_depth(st2) == stack_depth(st));
                        }
                    },
                    _ => {
                        let topv = st.last().push(OpS::Simple(insn_of_token(t)));
                        let st2 = st.update(st.len() - 1, topv);
                        assert(topv.drop_last() =~= st.last());
                        assert(topv.last() == OpS::Simple(insn_of_token(t)));
                        assert(op_depth(OpS::Simple(insn_of_token(t))) == 0);
                        assert(ops_depth(topv) == ops_depth(st.last()));
                        assert(st2.drop_last() =~= st.drop_last());
                        assert(st2.last() == topv);
                        assert(st2.len() == st.len());
                        assert(stack_depth(st2) == stack_depth(st));
                    },
                }
            },
        }
    }
}

/// For every program the builder accepts, the operator tree's maximum
/// loop-nesting depth equals the program's bracket-nesting depth.
pub proof fn theorem_ast_depth(toks: Seq<Token>)
    ensures
        token_parse(toks) matches Ok(ops) ==> ops_depth(ops) == max_depth(toks),
{
    lemma_depth_stack(toks);
    match token_parse_stack(toks) {
        Ok(st) => {
            if st.len() == 1 {
                reveal_with_fuel(stack_depth, 3);
                assert(st.drop_last() =~= Seq::<Seq<OpS>>::empty());
                assert(stack_depth(Seq::<Seq<OpS>>::empty()) == 0);
                assert(st.last() == st[0]);
                assert(stack_depth(st) == ops_depth(st[0]));
            }
        },
        Err(_) => {},
    }
}

} // verus!
