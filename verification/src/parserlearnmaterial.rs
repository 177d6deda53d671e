//! A small parser for chains of number literals joined by `+` and `-`.
use vstd::prelude::*;
use crate::core_types::{ASTNode, Node, NodeKind, ParserState, Tok, TokenType, lemma_same_kind};
use crate::parser::{at, bin};

verus! {

/// The model of a node kind: that of the node holding it.
pub open spec fn kind_view(k: NodeKind) -> Node {
    ASTNode { kind: k }@
}

/// The models of a sequence of node kinds.
pub open spec fn kinds_view(v: Seq<NodeKind>) -> Seq<Node> {
    v.map_values(|k: NodeKind| kind_view(k))
}

/// Given `left`, the rest of a chain `+ n` or `- n` of number literals from `q`, joined to
/// the left: the chain and the position after it.
pub open spec fn sum_rest(toks: Seq<Tok>, q: int, left: Node) -> Option<(Node, int)>
    decreases toks.len() - q,
{
    if 0 <= q < toks.len() && (toks[q] == Tok::Plus || toks[q] == Tok::Minus) {
        match at(toks, q + 1) {
            Some(Tok::Number(v)) => sum_rest(toks, q + 2, bin(left, toks[q], Node::Number(v))),
            _ => None,
        }
    } else {
        Some((left, q))
    }
}

/// Given the chains `acc` read so far, the chains of the tokens from `q` to the end; each
/// starts with a number literal.
pub open spec fn sums_rest(toks: Seq<Tok>, q: int, acc: Seq<Node>) -> Option<Seq<Node>>
    decreases toks.len() - q,
{
    if q < 0 || q >= toks.len() {
        Some(acc)
    } else {
        match toks[q] {
            Tok::Number(v) => match sum_rest(toks, q + 1, Node::Number(v)) {
                Some((e, q2)) => if q < q2 <= toks.len() {
                    sums_rest(toks, q2, acc.push(e))
                } else {
                    None
                },
                None => None,
            },
            _ => None,
        }
    }
}

/// The chains of the tokens from `p` to the end, or `None` where they are not such chains.
pub open spec fn sums(toks: Seq<Tok>, p: int) -> Option<Seq<Node>> {
    sums_rest(toks, p, Seq::empty())
}

/// Reads chains of number literals joined by `+` and `-` from the cursor to the end of the
/// tokens, appending each chain to `astlist`. Returns `false` where the tokens are not such
/// chains (see `sums`); `astlist` then holds the chains read before.
pub fn parse_checked(parserstate: &mut ParserState, astlist: &mut Vec<NodeKind>) -> (ok: bool)
    requires
        old(parserstate).wf(),
    ensures
        final(parserstate).wf(),
        final(parserstate).toks() == old(parserstate).toks(),
        ok == sums(old(parserstate).toks(), old(parserstate).pos()) is Some,
        ok ==> kinds_view(final(astlist)@) == kinds_view(old(astlist)@) + sums(
            old(parserstate).toks(),
            old(parserstate).pos(),
        )->0,
        ok ==> final(parserstate).pos() == old(parserstate).toks().len(),
{
    let ghost toks = parserstate.toks();
    let ghost p = parserstate.pos();
    let ghost mut acc: Seq<Node> = Seq::empty();
    proof {
        parserstate.lemma_bounds();
        assert(kinds_view(astlist@) =~= kinds_view(old(astlist)@) + acc);
    }
    while parserstate.peek().is_some()
        invariant
            parserstate.wf(),
            parserstate.toks() == toks,
            toks == old(parserstate).toks(),
            p == old(parserstate).pos(),
            0 <= p <= parserstate.pos() <= toks.len(),
            kinds_view(astlist@) == kinds_view(old(astlist)@) + acc,
            sums_rest(toks, parserstate.pos(), acc) == sums(toks, p),
        decreases toks.len() - parserstate.pos(),
    {
        let ghost q = parserstate.pos();
        let mut left = match parserstate.advance() {
            Some(TokenType::Number(v)) => NodeKind::Number(v),
            _ => return false,
        };
        let ghost first = kind_view(left);
        while parserstate.check(&TokenType::Plus) || parserstate.check(&TokenType::Minus)
            invariant
                parserstate.wf(),
                parserstate.toks() == toks,
                q < parserstate.pos() <= toks.len(),
                toks == old(parserstate).toks(),
                p == old(parserstate).pos(),
                0 <= p <= q < toks.len(),
                toks[q] matches Tok::Number(v) && first == Node::Number(v),
                kinds_view(astlist@) == kinds_view(old(astlist)@) + acc,
                sums_rest(toks, q, acc) == sums(toks, p),
                sum_rest(toks, parserstate.pos(), kind_view(left)) == sum_rest(toks, q + 1, first),
            decreases toks.len() - parserstate.pos(),
        {
            let ghost r = parserstate.pos();
            proof {
                parserstate.lemma_bounds();
                if toks[r] != Tok::Plus {
                    lemma_same_kind(toks[r], Tok::Minus);
                } else {
                    lemma_same_kind(toks[r], Tok::Plus);
                }
            }
            let op = parserstate.advance().unwrap();
            let right = match parserstate.advance() {
                Some(TokenType::Number(v)) => NodeKind::Number(v),
                _ => return false,
            };
            let ghost prev = kind_view(left);
            let l = ASTNode::new(left);
            let rt = ASTNode::new(right);
            proof {
                assert(l@ == prev);
                assert(rt@ == kind_view(right));
            }
            left = NodeKind::BinaryOp { left: Box::new(l), op, right: Box::new(rt) };
            proof {
                assert(kind_view(left) == bin(prev, toks[r], kind_view(right)));
            }
        }
        proof {
            parserstate.lemma_bounds();
            let ghost before = kinds_view(astlist@);
            assert(kinds_view(astlist@.push(left)) =~= before.push(kind_view(left)));
            acc = acc.push(kind_view(left));
        }
        astlist.push(left);
        proof {
            assert(kinds_view(astlist@) =~= kinds_view(old(astlist)@) + acc);
        }
    }
    true
}

/// Reads chains of number literals joined by `+` and `-` from the cursor to the end of the
/// tokens, appending each chain to `astlist`; the tokens must be such chains (see `sums`).
pub fn parse(parserstate: &mut ParserState, astlist: &mut Vec<NodeKind>)
    requires
        old(parserstate).wf(),
        sums(old(parserstate).toks(), old(parserstate).pos()) is Some,
    ensures
        final(parserstate).wf(),
        final(parserstate).toks() == old(parserstate).toks(),
        kinds_view(final(astlist)@) == kinds_view(old(astlist)@) + sums(
            old(parserstate).toks(),
            old(parserstate).pos(),
        )->0,
        final(parserstate).pos() == old(parserstate).toks().len(),
{
    parse_checked(parserstate, astlist);
}

} // verus!
