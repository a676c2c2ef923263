//! The grammar-driven front end: parses source bytes against the language's
//! grammar — a Program is a sequence of Commands and Loops, a Loop is a
//! bracketed Program, anything else is skipped — into a parse tree, which the
//! builder turns into an operator tree. Proved interchangeable with the
//! token front end.

use vstd::prelude::*;
use crate::ast::operators::{
    OpS, Operator, insn_of_byte, is_command_byte, op_view, ops_view, lemma_ops_view,
};
use crate::ast::tokenizer::{Token, token_of, tokens_of};
use crate::ast::{Ast, ParseError, insn_of_token, token_parse, token_parse_stack};

verus! {

broadcast use {vstd::seq::group_seq_axioms, vstd::std_specs::vec::group_vec_axioms};

/// A node of the parse tree: a Command span (its byte) or a bracketed Loop
/// over child nodes. The Program is a sequence of these at the root.
#[derive(Debug)]
pub enum ParseNode {
    Command(u8),
    Loop(Vec<ParseNode>),
}

/// The mathematical model of a parse-tree node.
pub enum NodeS {
    Command(u8),
    Loop(Seq<NodeS>),
}

/// Model of one node.
pub open spec fn node_view(n: ParseNode) -> NodeS
    decreases n,
{
    match n {
        ParseNode::Command(b) => NodeS::Command(b),
        ParseNode::Loop(ch) => NodeS::Loop(nodes_view(ch@)),
    }
}

/// Model of a sequence of nodes.
pub open spec fn nodes_view(s: Seq<ParseNode>) -> Seq<NodeS>
    decreases s,
{
    if s.len() == 0 {
        Seq::empty()
    } else {
        seq![node_view(s[0])] + nodes_view(s.drop_first())
    }
}

pub proof fn lemma_nodes_view(s: Seq<ParseNode>)
    ensures
        nodes_view(s).len() == s.len(),
        forall|i: int| 0 <= i < s.len() ==> nodes_view(s)[i] == node_view(s[i]),
    decreases s.len(),
{
    if s.len() > 0 {
        lemma_nodes_view(s.drop_first());
        assert forall|i: int| 0 <= i < s.len() implies nodes_view(s)[i] == node_view(s[i]) by {
            if i > 0 {
                assert(nodes_view(s)[i] == nodes_view(s.drop_first())[i - 1]);
                assert(s.drop_first()[i - 1] == s[i]);
            }
        }
    }
}

/// The operator a parse-tree node denotes.
pub open spec fn node_op(n: NodeS) -> OpS
    decreases n,
{
    match n {
        NodeS::Command(b) => OpS::Simple(insn_of_byte(b)),
        NodeS::Loop(ch) => OpS::Loop(node_ops(ch)),
    }
}

/// The operator sequence a parse tree denotes.
pub open spec fn node_ops(s: Seq<NodeS>) -> Seq<OpS>
    decreases s,
{
    if s.len() == 0 {
        Seq::empty()
    } else {
        seq![node_op(s[0])] + node_ops(s.drop_first())
    }
}

pub proof fn lemma_node_ops(s: Seq<NodeS>)
    ensures
        node_ops(s).len() == s.len(),
        forall|i: int| 0 <= i < s.len() ==> node_ops(s)[i] == node_op(s[i]),
    decreases s.len(),
{
    if s.len() > 0 {
        lemma_node_ops(s.drop_first());
        assert forall|i: int| 0 <= i < s.len() implies node_ops(s)[i] == node_op(s[i]) by {
            if i > 0 {
                assert(node_ops(s)[i] == node_ops(s.drop_first())[i - 1]);
                assert(s.drop_first()[i - 1] == s[i]);
            }
        }
    }
}

pub proof fn lemma_node_ops_push(s: Seq<NodeS>, n: NodeS)
    ensures
        node_ops(s.push(n)) == node_ops(s).push(node_op(n)),
{
    lemma_node_ops(s);
    lemma_node_ops(s.push(n));
    assert(node_ops(s.push(n)) =~= node_ops(s).push(node_op(n)));
}

/// A well-formed tree only carries command bytes in its Command nodes (the
/// grammar admits nothing else).
pub open spec fn wf_node(n: NodeS) -> bool
    decreases n,
{
    match n {
        NodeS::Command(b) => is_command_byte(b),
        NodeS::Loop(ch) => wf_nodes(ch),
    }
}

pub open spec fn wf_nodes(s: Seq<NodeS>) -> bool
    decreases s,
{
    if s.len() == 0 {
        true
    } else {
        wf_node(s[0]) && wf_nodes(s.drop_first())
    }
}

pub proof fn lemma_wf_nodes(s: Seq<NodeS>)
    requires
        wf_nodes(s),
    ensures
        forall|i: int| 0 <= i < s.len() ==> wf_node(s[i]),
    decreases s.len(),
{
    if s.len() > 0 {
        lemma_wf_nodes(s.drop_first());
        assert forall|i: int| 0 <= i < s.len() implies wf_node(s[i]) by {
            if i > 0 {
                assert(s.drop_first()[i - 1] == s[i]);
            }
        }
    }
}

pub proof fn lemma_wf_nodes_push(s: Seq<NodeS>, n: NodeS)
    requires
        wf_nodes(s),
        wf_node(n),
    ensures
        wf_nodes(s.push(n)),
    decreases s.len(),
{
    if s.len() == 0 {
        assert(s.push(n)[0] == n);
        assert(s.push(n).drop_first() =~= Seq::<NodeS>::empty());
        assert(wf_nodes(Seq::<NodeS>::empty()));
        assert(wf_node(s.push(n)[0]));
    } else {
        lemma_wf_nodes_push(s.drop_first(), n);
        assert(s.push(n).drop_first() =~= s.drop_first().push(n));
        assert(s.push(n)[0] == s[0]);
        assert(wf_node(s.push(n)[0]));
        assert(wf_nodes(s.push(n).drop_first()));
    }
}

/// One step of the grammar parse over a source byte.
pub open spec fn tree_step(stack: Seq<Seq<NodeS>>, b: u8) -> Result<Seq<Seq<NodeS>>, ParseError> {
    if b == 91 {
        Ok(stack.push(Seq::empty()))
    } else if b == 93 {
        if stack.len() <= 1 {
            Err(ParseError::UnmatchedClose)
        } else {
            let body = stack.last();
            let rest = stack.drop_last();
            Ok(rest.update(rest.len() - 1, rest.last().push(NodeS::Loop(body))))
        }
    } else if is_command_byte(b) {
        Ok(stack.update(stack.len() - 1, stack.last().push(NodeS::Command(b))))
    } else {
        Ok(stack)
    }
}

/// Folds the grammar parse over the source bytes.
pub open spec fn tree_parse_stack(src: Seq<u8>) -> Result<Seq<Seq<NodeS>>, ParseError>
    decreases src.len(),
{
    if src.len() == 0 {
        Ok(seq![Seq::<NodeS>::empty()])
    } else {
        match tree_parse_stack(src.drop_last()) {
            Ok(stack) => tree_step(stack, src.last()),
            Err(e) => Err(e),
        }
    }
}

/// What a source parses to under the grammar: its parse tree, or the same
/// fatal bracket errors as the token front end.
pub open spec fn tree_parse(src: Seq<u8>) -> Result<Seq<NodeS>, ParseError> {
    match tree_parse_stack(src) {
        Ok(stack) => if stack.len() == 1 {
            Ok(stack[0])
        } else {
            Err(ParseError::UnterminatedLoop)
        },
        Err(e) => Err(e),
    }
}

/// A parse error in a prefix is a parse error of the whole source.
proof fn lemma_tree_parse_stack_err(src: Seq<u8>, i: int, e: ParseError)
    requires
        0 <= i <= src.len(),
        tree_parse_stack(src.take(i)) == Err::<Seq<Seq<NodeS>>, ParseError>(e),
    ensures
        tree_parse_stack(src) == Err::<Seq<Seq<NodeS>>, ParseError>(e),
    decreases src.len(),
{
    if i < src.len() {
        assert(src.drop_last().take(i) =~= src.take(i));
        lemma_tree_parse_stack_err(src.drop_last(), i, e);
    } else {
        assert(src.take(i) =~= src);
    }
}

/// The grammar parse's stack always keeps its root sequence.
proof fn lemma_tree_stack_nonempty(src: Seq<u8>)
    ensures
        tree_parse_stack(src) matches Ok(ts) ==> ts.len() >= 1,
    decreases src.len(),
{
    if src.len() > 0 {
        lemma_tree_stack_nonempty(src.drop_last());
    }
}

/// Every tree the grammar parse builds is well formed.
proof fn lemma_tree_stack_wf(src: Seq<u8>)
    ensures
        tree_parse_stack(src) matches Ok(ts) ==> forall|j: int|
            0 <= j < ts.len() ==> wf_nodes(#[trigger] ts[j]),
    decreases src.len(),
{
    if src.len() == 0 {
    } else {
        lemma_tree_stack_wf(src.drop_last());
        lemma_tree_stack_nonempty(src.drop_last());
        let b = src.last();
        match tree_parse_stack(src.drop_last()) {
            Ok(ts) => {
                match tree_step(ts, b) {
                    Ok(ts2) => {
                        assert forall|j: int| 0 <= j < ts2.len() implies wf_nodes(
                            #[trigger] ts2[j],
                        ) by {
                            if b == 91 {
                                if j < ts.len() {
                                    assert(ts2[j] == ts[j]);
                                    assert(wf_nodes(ts[j]));
                                } else {
                                    assert(ts2[j] =~= Seq::<NodeS>::empty());
                                    assert(wf_nodes(Seq::<NodeS>::empty()));
                                }
                            } else if b == 93 {
                                let rest = ts.drop_last();
                                if j == rest.len() - 1 {
                                    assert(wf_nodes(ts[ts.len() - 2]));
                                    assert(wf_nodes(ts[ts.len() - 1]));
                                    assert(rest.last() == ts[ts.len() - 2]);
                                    assert(wf_node(NodeS::Loop(ts.last())));
                                    lemma_wf_nodes_push(rest.last(), NodeS::Loop(ts.last()));
                                    assert(ts2[j] == rest.last().push(NodeS::Loop(ts.last())));
                                } else {
                                    assert(ts2[j] == rest[j]);
                                    assert(rest[j] == ts[j]);
                                    assert(wf_nodes(ts[j]));
                                }
                            } else if is_command_byte(b) {
                                if j == ts.len() - 1 {
                                    assert(wf_nodes(ts[ts.len() - 1]));
                                    assert(ts.last() == ts[ts.len() - 1]);
                                    assert(wf_node(NodeS::Command(b)));
                                    lemma_wf_nodes_push(ts.last(), NodeS::Command(b));
                                    assert(ts2[j] == ts.last().push(NodeS::Command(b)));
                                } else {
                                    assert(ts2[j] == ts[j]);
                                    assert(wf_nodes(ts[j]));
                                }
                            } else {
                                assert(ts2[j] == ts[j]);
                                assert(wf_nodes(ts[j]));
                            }
                        }
                    },
                    Err(_) => {},
                }
            },
            Err(_) => {},
        }
    }
}

/// View of a grammar builder stack.
pub open spec fn nodestack_view(s: Seq<Vec<ParseNode>>) -> Seq<Seq<NodeS>> {
    s.map_values(|v: Vec<ParseNode>| nodes_view(v@))
}

/// The grammar-driven parser over raw source bytes.
pub struct BrainFuckParser;

impl BrainFuckParser {
    /// Parses a source against the grammar into its parse tree (the root
    /// Program is the returned node sequence). Rejects exactly the sources
    /// the token front end rejects, with the same error.
    pub fn parse(source: &Vec<u8>) -> (r: Result<Vec<ParseNode>, ParseError>)
        ensures
            (r matches Ok(nodes) ==> tree_parse(source@) == Ok::<Seq<NodeS>, ParseError>(
                nodes_view(nodes@),
            ) && wf_nodes(nodes_view(nodes@))),
            (r matches Err(e) ==> tree_parse(source@) == Err::<Seq<NodeS>, ParseError>(e)),
    {
        let mut stack: Vec<Vec<ParseNode>> = Vec::new();
        stack.push(Vec::new());
        proof {
            assert(nodestack_view(stack@) =~= seq![Seq::<NodeS>::empty()]);
            assert(source@.take(0) =~= Seq::<u8>::empty());
        }
        let mut i: usize = 0;
        while i < source.len()
            invariant
                i <= source@.len(),
                stack@.len() >= 1,
                tree_parse_stack(source@.take(i as int)) == Ok::<Seq<Seq<NodeS>>, ParseError>(
                    nodestack_view(stack@),
                ),
            decreases source@.len() - i,
        {
            let ghost pre = nodestack_view(stack@);
            proof {
                assert(source@.take(i + 1).drop_last() =~= source@.take(i as int));
                assert(source@.take(i + 1).last() == source@[i as int]);
            }
            let b = source[i];
            if b == 91 {
                stack.push(Vec::new());
                proof {
                    assert(nodes_view(Seq::<ParseNode>::empty()) =~= Seq::<NodeS>::empty());
                    assert(nodestack_view(stack@) =~= pre.push(Seq::<NodeS>::empty()));
                }
            } else if b == 93 {
                if stack.len() == 1 {
                    proof {
                        lemma_tree_parse_stack_err(source@, i + 1, ParseError::UnmatchedClose);
                    }
                    return Err(ParseError::UnmatchedClose);
                }
                let body = stack.pop().unwrap();
                let mut top = stack.pop().unwrap();
                let ghost top0 = top@;
                top.push(ParseNode::Loop(body));
                let ghost top1 = top@;
                stack.push(top);
                proof {
                    let rest = pre.drop_last();
                    lemma_nodes_view(top0);
                    lemma_nodes_view(top1);
                    assert(nodes_view(top1) =~= nodes_view(top0).push(NodeS::Loop(pre.last())));
                    assert(nodestack_view(stack@) =~= rest.update(
                        rest.len() - 1,
                        rest.last().push(NodeS::Loop(pre.last())),
                    ));
                }
            } else if b == 62 || b == 60 || b == 43 || b == 45 || b == 46 || b == 44 {
                let mut top = stack.pop().unwrap();
                let ghost top0 = top@;
                top.push(ParseNode::Command(b));
                let ghost top1 = top@;
                stack.push(top);
                proof {
                    lemma_nodes_view(top0);
                    lemma_nodes_view(top1);
                    assert(nodes_view(top1) =~= nodes_view(top0).push(NodeS::Command(b)));
                    assert(nodestack_view(stack@) =~= pre.update(
                        pre.len() - 1,
                        pre.last().push(NodeS::Command(b)),
                    ));
                }
            } else {
                // outside the alphabet: the grammar skips it
            }
            i = i + 1;
        }
        proof {
            assert(source@.take(source@.len() as int) =~= source@);
            lemma_tree_stack_wf(source@);
        }
        if stack.len() == 1 {
            let root = stack.pop().unwrap();
            Ok(root)
        } else {
            Err(ParseError::UnterminatedLoop)
        }
    }
}

impl Ast {
    /// Builds the operator tree from a grammar front end's parse tree.
    #[verifier::loop_isolation(false)]
    pub fn parse_from_tree(nodes: &Vec<ParseNode>) -> (ast: Ast)
        requires
            wf_nodes(nodes_view(nodes@)),
        ensures
            ast@ == node_ops(nodes_view(nodes@)),
        decreases nodes,
    {
        proof {
            lemma_nodes_view(nodes@);
            lemma_node_ops(nodes_view(nodes@));
            lemma_wf_nodes(nodes_view(nodes@));
        }
        let mut ops: Vec<Operator> = Vec::new();
        let mut i: usize = 0;
        while i < nodes.len()
            invariant
                i <= nodes@.len(),
                ops_view(ops@) == node_ops(nodes_view(nodes@)).take(i as int),
            decreases nodes@.len() - i,
        {
            let ghost opsv0 = ops_view(ops@);
            let ghost ops0 = ops@;
            proof {
                lemma_nodes_view(nodes@);
                lemma_node_ops(nodes_view(nodes@));
                lemma_wf_nodes(nodes_view(nodes@));
                assert(wf_node(nodes_view(nodes@)[i as int]));
                assert(node_ops(nodes_view(nodes@))[i as int] == node_op(
                    nodes_view(nodes@)[i as int],
                ));
            }
            match &nodes[i] {
                ParseNode::Command(b) => {
                    let leaf = Operator::from_byte(*b);
                    ops.push(leaf);
                    proof {
                        lemma_ops_view(ops0);
                        lemma_ops_view(ops@);
                        assert(nodes_view(nodes@)[i as int] == NodeS::Command(*b));
                        assert(op_view(ops@[ops0.len() as int]) == node_op(
                            nodes_view(nodes@)[i as int],
                        ));
                        assert(ops_view(ops@) =~= node_ops(nodes_view(nodes@)).take(i + 1));
                    }
                },
                ParseNode::Loop(ch) => {
                    let sub = Ast::parse_from_tree(ch);
                    let ghost subv = sub@;
                    ops.push(Operator::Loop(sub));
                    proof {
                        lemma_ops_view(ops0);
                        lemma_ops_view(ops@);
                        assert(nodes_view(nodes@)[i as int] == NodeS::Loop(nodes_view(ch@)));
                        assert(op_view(ops@[ops0.len() as int]) == OpS::Loop(subv));
                        assert(node_op(nodes_view(nodes@)[i as int]) == OpS::Loop(
                            node_ops(nodes_view(ch@)),
                        ));
                        assert(ops_view(ops@) =~= node_ops(nodes_view(nodes@)).take(i + 1));
                    }
                },
            }
            i = i + 1;
        }
        proof {
            assert(node_ops(nodes_view(nodes@)).take(nodes@.len() as int) =~= node_ops(
                nodes_view(nodes@),
            ));
        }
        Ast(ops)
    }
}

/// The mapped image of a grammar stack under `node_ops`.
pub open spec fn stack_ops(ts: Seq<Seq<NodeS>>) -> Seq<Seq<OpS>> {
    ts.map_values(|x: Seq<NodeS>| node_ops(x))
}

/// The two front ends walk in lockstep: after any source prefix, the grammar
/// parse's stack maps under `node_ops` to the token parse's stack, and they
/// fail together with the same error.
proof fn lemma_front_end_stacks(src: Seq<u8>)
    ensures
        match tree_parse_stack(src) {
            Ok(ts) => token_parse_stack(tokens_of(src)) == Ok::<Seq<Seq<OpS>>, ParseError>(
                stack_ops(ts),
            ),
            Err(e) => token_parse_stack(tokens_of(src)) == Err::<Seq<Seq<OpS>>, ParseError>(e),
        },
    decreases src.len(),
{
    let toks = tokens_of(src);
    if src.len() == 0 {
        assert(toks =~= Seq::<Token>::empty());
        assert(stack_ops(seq![Seq::<NodeS>::empty()]) =~= seq![Seq::<OpS>::empty()]);
    } else {
        lemma_front_end_stacks(src.drop_last());
        lemma_tree_stack_nonempty(src.drop_last());
        let b = src.last();
        let t = token_of(b);
        assert(toks.drop_last() =~= tokens_of(src.drop_last()));
        assert(toks.last() == t);
        match tree_parse_stack(src.drop_last()) {
            Err(_) => {},
            Ok(ts) => {
                let ps = stack_ops(ts);
                if b == 91 {
                    assert(stack_ops(ts.push(Seq::empty())) =~= ps.push(Seq::<OpS>::empty()));
                } else if b == 93 {
                    if ts.len() <= 1 {
                    } else {
                        let body = ts.last();
                        let rest = ts.drop_last();
                        let ts2 = rest.update(rest.len() - 1, rest.last().push(NodeS::Loop(body)));
                        lemma_node_ops_push(rest.last(), NodeS::Loop(body));
                        assert(ts2[ts2.len() - 1] == rest.last().push(NodeS::Loop(body)));
                        assert(node_ops(ts2[ts2.len() - 1]) == node_ops(rest.last()).push(
                            OpS::Loop(node_ops(body)),
                        ));
                        assert(node_ops(rest.last()) == ps[ps.len() - 2]);
                        assert(ps.drop_last().last() == ps[ps.len() - 2]);
                        assert(node_ops(body) == ps.last());
                        assert(stack_ops(ts2) =~= ps.drop_last().update(
                            ps.drop_last().len() - 1,
                            ps.drop_last().last().push(OpS::Loop(ps.last())),
                        ));
                    }
                } else if is_command_byte(b) {
                    let ts2 = ts.update(ts.len() - 1, ts.last().push(NodeS::Command(b)));
                    lemma_node_ops_push(ts.last(), NodeS::Command(b));
                    assert(insn_of_token(t) == insn_of_byte(b));
                    assert(ts2[ts2.len() - 1] == ts.last().push(NodeS::Command(b)));
                    assert(node_ops(ts2[ts2.len() - 1]) == node_ops(ts.last()).push(
                        OpS::Simple(insn_of_byte(b)),
                    ));
                    assert(node_ops(ts.last()) == ps[ps.len() - 1]);
                    assert(stack_ops(ts2) =~= ps.update(
                        ps.len() - 1,
                        ps.last().push(OpS::Simple(insn_of_token(t))),
                    ));
                } else {
                    assert(t matches Token::Nop(_));
                }
            },
        }
    }
}

/// For any source, the grammar-driven front end and the token front end
/// agree: they accept exactly the same programs, reject with the same error,
/// and on success their trees denote structurally identical operator trees.
pub proof fn theorem_front_ends_agree(src: Seq<u8>)
    ensures
        (tree_parse(src) matches Ok(nodes) ==> token_parse(tokens_of(src)) == Ok::<
            Seq<OpS>,
            ParseError,
        >(node_ops(nodes))),
        (tree_parse(src) matches Err(e) ==> token_parse(tokens_of(src)) == Err::<
            Seq<OpS>,
            ParseError,
        >(e)),
{
    lemma_front_end_stacks(src);
    match tree_parse_stack(src) {
        Ok(ts) => {
            assert(stack_ops(ts).len() == ts.len());
            if ts.len() == 1 {
                assert(stack_ops(ts)[0] == node_ops(ts[0]));
            }
        },
        Err(_) => {},
    }
}

} // verus!
