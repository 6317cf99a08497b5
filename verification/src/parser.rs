//! Parser: turns a token sequence into an expression tree.
//!
//! The grammar of a scope (the whole input, or the inside of one bracket
//! pair) is `Expr := Term (Op Term)*`, where a term is a number or a
//! bracketed expression. The parser works with two stacks, one of completed
//! sub-trees and one of pending operators. Before an operator is pushed,
//! every pending operator of equal or higher precedence is merged first
//! (equal precedence merges too, which makes chains of equal-precedence
//! operators associate to the left). Each open bracket starts a fresh scope;
//! its close bracket resolves that scope to a single sub-tree of the outer
//! scope.
//!
//! A scope must end (at its close bracket, or at the end of input for the
//! top-level scope) right after a number or a bracketed group, a scope must
//! not begin with an operator, and after a close bracket only an operator
//! may follow. So a leading or trailing operator, an empty bracket pair, and
//! a close bracket right after a close bracket are syntax errors, and each
//! merge provably finds an operator and two operands on the stacks: the
//! stack-underflow faults the algorithm could otherwise reach cannot happen.

use crate::tokenizer::Token;
use core::cmp::Ordering;
use vstd::prelude::*;
use vstd::string::StringExecFns;

verus! {

/// A binary arithmetic operator. Operators compare by their precedence rank
/// alone, never by identity: two different operators of equal rank are equal
/// for ordering purposes, which is what makes equal precedence trigger a
/// merge.
#[derive(Debug, Copy, Clone)]
pub enum Operator {
    Plus,
    Minus,
    Divide,
    Multiply,
}

impl PartialEq for Operator {
    fn eq(&self, other: &Self) -> (r: bool) {
        self.get_precedence() == other.get_precedence()
    }
}

impl vstd::std_specs::cmp::PartialEqSpecImpl for Operator {
    open spec fn obeys_eq_spec() -> bool {
        true
    }

    open spec fn eq_spec(&self, other: &Operator) -> bool {
        spec_precedence(*self) == spec_precedence(*other)
    }
}

impl PartialOrd for Operator {
    fn partial_cmp(&self, other: &Self) -> (r: Option<Ordering>) {
        Some(self.get_precedence().cmp(&other.get_precedence()))
    }
}

impl vstd::std_specs::cmp::PartialOrdSpecImpl for Operator {
    open spec fn obeys_partial_cmp_spec() -> bool {
        true
    }

    open spec fn partial_cmp_spec(&self, other: &Operator) -> Option<Ordering> {
        if spec_precedence(*self) < spec_precedence(*other) {
            Some(Ordering::Less)
        } else if spec_precedence(*self) > spec_precedence(*other) {
            Some(Ordering::Greater)
        } else {
            Some(Ordering::Equal)
        }
    }
}

/// The precedence rank of an operator: multiplicative operators bind tighter
/// than additive ones.
pub open spec fn spec_precedence(op: Operator) -> int {
    match op {
        Operator::Plus | Operator::Minus => 0,
        Operator::Divide | Operator::Multiply => 1,
    }
}

impl Operator {
    /// Plus and Minus rank 0; Divide and Multiply rank 1.
    pub fn get_precedence(&self) -> (r: u32)
        ensures
            r as int == spec_precedence(*self),
    {
        match *self {
            Operator::Plus | Operator::Minus => 0,
            Operator::Divide | Operator::Multiply => 1,
        }
    }
}

/// An expression tree: leaves are number literals, inner nodes apply an
/// operator to their two children.
#[derive(Debug)]
pub enum Node {
    Op(Operator, Box<Node>, Box<Node>),
    Num(u32),
}

/// How parsing can fail; the public function reports each case as the
/// message `parse_err_msg` gives it.
#[derive(Debug, Copy, Clone, PartialEq, Eq, Structural)]
pub enum ParseError {
    ExpectedNumberOrOpenBracket,
    ExpectedOperatorOrCloseBracket,
    ExpectedNumber,
    ExpectedOperator,
    UnexpectedCloseBracket,
    UnmatchedBracket,
}

pub open spec fn parse_err_msg(e: ParseError) -> Seq<char> {
    match e {
        ParseError::ExpectedNumberOrOpenBracket => "Expected Number or Open Bracket"@,
        ParseError::ExpectedOperatorOrCloseBracket => "Expected Operator or Close Bracket"@,
        ParseError::ExpectedNumber => "Expected Number"@,
        ParseError::ExpectedOperator => "Expected Operator"@,
        ParseError::UnexpectedCloseBracket => "Unexpected close bracket"@,
        ParseError::UnmatchedBracket => "Unmatched bracket"@,
    }
}

/// The operator a token stands for, if any.
pub open spec fn token_operator(t: Token) -> Option<Operator> {
    match t {
        Token::Plus => Some(Operator::Plus),
        Token::Minus => Some(Operator::Minus),
        Token::Divide => Some(Operator::Divide),
        Token::Multiply => Some(Operator::Multiply),
        _ => None,
    }
}

/// One parsing scope: the completed sub-trees, the pending operators, and the
/// previous token consumed in this scope (`None` at the start of the scope).
#[verifier::ext_equal]
pub struct SFrame {
    pub nodes: Seq<Node>,
    pub ops: Seq<Operator>,
    pub prev: Option<Token>,
}

pub open spec fn init_frame() -> SFrame {
    SFrame { nodes: Seq::empty(), ops: Seq::empty(), prev: None }
}

/// Whether the scope still waits for a term (a number or a bracketed group).
pub open spec fn expects_term(prev: Option<Token>) -> bool {
    match prev {
        None => true,
        Some(t) => !(t is Number || t is CloseBracket),
    }
}

/// The token-adjacency rule: which token may follow which, within a scope.
/// `None` means the pair is legal.
///
/// Two boundary decisions are recorded here. After a close bracket only an
/// operator is legal, so nested bracket groups cannot close together: the
/// second close bracket of an input shaped like `((1))` is rejected with
/// "Expected Operator". And at the start of a scope (`prev` is `None`) an
/// operator is rejected: the grammar derives no leading operator, such an
/// operator would have no left operand — the operand stack would underflow
/// at its merge, the programming fault this parser keeps unreachable — and
/// rejecting it mirrors the rejection of a trailing operator at the end of
/// a scope.
pub open spec fn spec_validate(prev: Option<Token>, curr: Token) -> Option<ParseError> {
    match prev {
        None => match curr {
            Token::Plus | Token::Minus | Token::Divide | Token::Multiply => Some(
                ParseError::ExpectedNumberOrOpenBracket,
            ),
            _ => None,
        },
        Some(p) => match p {
            Token::Plus | Token::Minus | Token::Divide | Token::Multiply => match curr {
                Token::Number(_) | Token::OpenBracket => None,
                _ => Some(ParseError::ExpectedNumberOrOpenBracket),
            },
            Token::Number(_) => match curr {
                Token::Plus | Token::Minus | Token::Divide | Token::Multiply
                | Token::CloseBracket => None,
                _ => Some(ParseError::ExpectedOperatorOrCloseBracket),
            },
            Token::OpenBracket => match curr {
                Token::Number(_) => None,
                _ => Some(ParseError::ExpectedNumber),
            },
            Token::CloseBracket => match curr {
                Token::Plus | Token::Minus | Token::Divide | Token::Multiply => None,
                _ => Some(ParseError::ExpectedOperator),
            },
        },
    }
}

/// Pops the top operator and the top two sub-trees and pushes their
/// combination back as one sub-tree.
pub open spec fn merge_ns(nodes: Seq<Node>, ops: Seq<Operator>) -> (Seq<Node>, Seq<Operator>)
    recommends
        nodes.len() >= 2,
        ops.len() >= 1,
{
    let right = nodes.last();
    let left = nodes[nodes.len() - 2];
    (
        nodes.drop_last().drop_last().push(Node::Op(ops.last(), Box::new(left), Box::new(right))),
        ops.drop_last(),
    )
}

/// Merges while the pending operator on top has precedence at least `p`.
pub open spec fn drain_ge(nodes: Seq<Node>, ops: Seq<Operator>, p: int) -> (
    Seq<Node>,
    Seq<Operator>,
)
    decreases ops.len(),
{
    if ops.len() > 0 && spec_precedence(ops.last()) >= p {
        let m = merge_ns(nodes, ops);
        drain_ge(m.0, m.1, p)
    } else {
        (nodes, ops)
    }
}

/// Merges every pending operator; the remaining single sub-tree is the
/// scope's result.
pub open spec fn resolve_ns(nodes: Seq<Node>, ops: Seq<Operator>) -> Node
    recommends
        nodes.len() == ops.len() + 1,
    decreases ops.len(),
{
    if ops.len() == 0 {
        nodes.last()
    } else {
        let m = merge_ns(nodes, ops);
        resolve_ns(m.0, m.1)
    }
}

/// Consumes one token: the parser state is the stack of open scopes, the
/// last entry being the current one.
pub open spec fn spec_step(st: Seq<SFrame>, t: Token) -> Result<Seq<SFrame>, ParseError>
    recommends
        st.len() >= 1,
{
    let f = st.last();
    match spec_validate(f.prev, t) {
        Some(e) => Err(e),
        None => match t {
            Token::Number(n) => Ok(
                st.update(
                    st.len() - 1,
                    SFrame { nodes: f.nodes.push(Node::Num(n)), ops: f.ops, prev: Some(t) },
                ),
            ),
            Token::OpenBracket => Ok(st.push(init_frame())),
            Token::CloseBracket => {
                if st.len() == 1 {
                    Err(ParseError::UnexpectedCloseBracket)
                } else if f.prev is None {
                    Err(ParseError::ExpectedNumberOrOpenBracket)
                } else {
                    let node = resolve_ns(f.nodes, f.ops);
                    let outer = st[st.len() - 2];
                    Ok(
                        st.drop_last().update(
                            st.len() - 2,
                            SFrame {
                                nodes: outer.nodes.push(node),
                                ops: outer.ops,
                                prev: Some(Token::CloseBracket),
                            },
                        ),
                    )
                }
            },
            _ => {
                let op = token_operator(t)->Some_0;
                let d = drain_ge(f.nodes, f.ops, spec_precedence(op));
                Ok(
                    st.update(
                        st.len() - 1,
                        SFrame { nodes: d.0, ops: d.1.push(op), prev: Some(t) },
                    ),
                )
            },
        },
    }
}

/// The parser state after the first `i` tokens.
pub open spec fn spec_run(ts: Seq<Token>, i: int) -> Result<Seq<SFrame>, ParseError>
    decreases i,
{
    if i <= 0 {
        Ok(seq![init_frame()])
    } else {
        match spec_run(ts, i - 1) {
            Err(e) => Err(e),
            Ok(st) => spec_step(st, ts[i - 1]),
        }
    }
}

/// End of input: every bracket must be closed and the top-level scope must
/// not be waiting for a term.
pub open spec fn spec_finish(st: Seq<SFrame>) -> Result<Node, ParseError>
    recommends
        st.len() >= 1,
{
    if st.len() > 1 {
        Err(ParseError::UnmatchedBracket)
    } else if expects_term(st.last().prev) {
        Err(ParseError::ExpectedNumberOrOpenBracket)
    } else {
        Ok(resolve_ns(st.last().nodes, st.last().ops))
    }
}

/// What parsing returns on any token sequence.
pub open spec fn spec_parse(ts: Seq<Token>) -> Result<Node, ParseError> {
    match spec_run(ts, ts.len() as int) {
        Err(e) => Err(e),
        Ok(st) => spec_finish(st),
    }
}

/// In a scope that waits for a term there are as many sub-trees as pending
/// operators; otherwise one more sub-tree.
pub open spec fn wf_frame(f: SFrame) -> bool {
    if expects_term(f.prev) {
        f.nodes.len() == f.ops.len()
    } else {
        f.nodes.len() == f.ops.len() + 1
    }
}

/// The invariant of reachable parser states: every scope is balanced and
/// every enclosing scope stopped right after an open bracket or an operator.
pub open spec fn wf_state(st: Seq<SFrame>) -> bool {
    &&& st.len() >= 1
    &&& forall|i: int| 0 <= i < st.len() ==> wf_frame(#[trigger] st[i])
    &&& forall|i: int| 0 <= i < st.len() - 1 ==> expects_term(#[trigger] st[i].prev)
}

proof fn lemma_drain_wf(nodes: Seq<Node>, ops: Seq<Operator>, p: int)
    requires
        nodes.len() == ops.len() + 1,
    ensures
        drain_ge(nodes, ops, p).0.len() == drain_ge(nodes, ops, p).1.len() + 1,
    decreases ops.len(),
{
    if ops.len() > 0 && spec_precedence(ops.last()) >= p {
        let m = merge_ns(nodes, ops);
        lemma_drain_wf(m.0, m.1, p);
    }
}

proof fn lemma_step_wf(st: Seq<SFrame>, t: Token)
    requires
        wf_state(st),
        spec_step(st, t) is Ok,
    ensures
        wf_state(spec_step(st, t)->Ok_0),
{
    let f = st.last();
    let st2 = spec_step(st, t)->Ok_0;
    match t {
        Token::Number(_) => {
            assert(wf_state(st2));
        },
        Token::OpenBracket => {
            assert(wf_state(st2));
        },
        Token::CloseBracket => {
            assert(wf_state(st2));
        },
        _ => {
            lemma_drain_wf(f.nodes, f.ops, spec_precedence(token_operator(t)->Some_0));
            assert(wf_state(st2));
        },
    }
}

/// A parse error, once reached, is the result of every longer run.
proof fn lemma_run_err(ts: Seq<Token>, i: int, j: int)
    requires
        0 <= i <= j,
        spec_run(ts, i) is Err,
    ensures
        spec_run(ts, j) == spec_run(ts, i),
    decreases j - i,
{
    if j > i {
        lemma_run_err(ts, i, j - 1);
    }
}

/// The two parallel stacks of one parsing scope.
struct Stack {
    nodes: Vec<Node>,
    ops: Vec<Operator>,
}

impl Stack {
    fn new() -> (s: Stack)
        ensures
            s.nodes@ == Seq::<Node>::empty(),
            s.ops@ == Seq::<Operator>::empty(),
    {
        Stack { nodes: Vec::new(), ops: Vec::new() }
    }

    fn push_node(&mut self, node: Node)
        ensures
            final(self).nodes@ == old(self).nodes@.push(node),
            final(self).ops@ == old(self).ops@,
    {
        self.nodes.push(node);
    }

    fn push_op(&mut self, op: Operator)
        ensures
            final(self).nodes@ == old(self).nodes@,
            final(self).ops@ == old(self).ops@.push(op),
    {
        self.ops.push(op);
    }

    /// Combines the top two sub-trees with the top pending operator.
    fn merge_node_set(&mut self)
        requires
            old(self).nodes@.len() >= 2,
            old(self).ops@.len() >= 1,
        ensures
            final(self).nodes@ == merge_ns(old(self).nodes@, old(self).ops@).0,
            final(self).ops@ == merge_ns(old(self).nodes@, old(self).ops@).1,
    {
        let right = self.nodes.pop().unwrap();
        let op = self.ops.pop().unwrap();
        let left = self.nodes.pop().unwrap();
        self.nodes.push(Node::Op(op, Box::new(left), Box::new(right)));
        proof {
            assert(final(self).nodes@ =~= merge_ns(old(self).nodes@, old(self).ops@).0);
            assert(final(self).ops@ =~= merge_ns(old(self).nodes@, old(self).ops@).1);
        }
    }

    /// Merges while the top pending operator has precedence at least `p`.
    fn merge_pending(&mut self, p: u32)
        requires
            old(self).nodes@.len() == old(self).ops@.len() + 1,
        ensures
            final(self).nodes@ == drain_ge(old(self).nodes@, old(self).ops@, p as int).0,
            final(self).ops@ == drain_ge(old(self).nodes@, old(self).ops@, p as int).1,
            final(self).nodes@.len() == final(self).ops@.len() + 1,
    {
        let ghost n0 = self.nodes@;
        let ghost o0 = self.ops@;
        while self.ops.len() > 0 && self.ops[self.ops.len() - 1].get_precedence() >= p
            invariant
                self.nodes@.len() == self.ops@.len() + 1,
                drain_ge(self.nodes@, self.ops@, p as int) == drain_ge(n0, o0, p as int),
            decreases self.ops@.len(),
        {
            self.merge_node_set();
        }
    }

    /// Merges everything pending and returns the single remaining sub-tree.
    fn resolve_all(&mut self) -> (r: Node)
        requires
            old(self).nodes@.len() == old(self).ops@.len() + 1,
        ensures
            r == resolve_ns(old(self).nodes@, old(self).ops@),
    {
        let ghost n0 = self.nodes@;
        let ghost o0 = self.ops@;
        while self.nodes.len() > 1
            invariant
                self.nodes@.len() == self.ops@.len() + 1,
                resolve_ns(self.nodes@, self.ops@) == resolve_ns(n0, o0),
            decreases self.ops@.len(),
        {
            self.merge_node_set();
        }
        self.nodes.pop().unwrap()
    }
}

spec fn frame_view(f: (Stack, Option<Token>)) -> SFrame {
    SFrame { nodes: f.0.nodes@, ops: f.0.ops@, prev: f.1 }
}

/// The abstract parser state: the suspended outer scopes, then the current one.
spec fn st_view(outer: Seq<(Stack, Option<Token>)>, stack: Stack, prev: Option<Token>) -> Seq<
    SFrame,
> {
    outer.map_values(|f: (Stack, Option<Token>)| frame_view(f)).push(
        SFrame { nodes: stack.nodes@, ops: stack.ops@, prev },
    )
}

/// Checks that `curr_token` may follow `prev_token` within a scope, per
/// `spec_validate` and the boundary decisions its comment records.
/// `prev_token` is `None` at the start of a scope, where a number, an open
/// bracket or a close bracket passes (a close bracket is then judged by the
/// scope itself) but an operator is rejected.
pub fn validate_token(prev_token: Option<Token>, curr_token: Token) -> (r: Result<(), String>)
    ensures
        match spec_validate(prev_token, curr_token) {
            None => r is Ok,
            Some(e) => r is Err && r->Err_0@ == parse_err_msg(e),
        },
{
    match prev_token {
        None => match curr_token {
            Token::Plus | Token::Minus | Token::Divide | Token::Multiply => Err(
                String::from_str("Expected Number or Open Bracket"),
            ),
            _ => Ok(()),
        },
        Some(prev) => match prev {
            Token::Plus | Token::Minus | Token::Divide | Token::Multiply => match curr_token {
                Token::Number(_) | Token::OpenBracket => Ok(()),
                _ => Err(String::from_str("Expected Number or Open Bracket")),
            },
            Token::Number(_) => match curr_token {
                Token::Plus | Token::Minus | Token::Divide | Token::Multiply
                | Token::CloseBracket => Ok(()),
                _ => Err(String::from_str("Expected Operator or Close Bracket")),
            },
            Token::OpenBracket => match curr_token {
                Token::Number(_) => Ok(()),
                _ => Err(String::from_str("Expected Number")),
            },
            Token::CloseBracket => match curr_token {
                Token::Plus | Token::Minus | Token::Divide | Token::Multiply => Ok(()),
                _ => Err(String::from_str("Expected Operator")),
            },
        },
    }
}

/// Parses a token sequence into an expression tree, or reports the first
/// syntax error.
pub fn parse(input: &[Token]) -> (r: Result<Node, String>)
    ensures
        match spec_parse(input@) {
            Ok(n) => r is Ok && r->Ok_0 == n,
            Err(e) => r is Err && r->Err_0@ == parse_err_msg(e),
        },
{
    let ghost ts = input@;
    let mut stack = Stack::new();
    let mut prev: Option<Token> = None;
    let mut outer: Vec<(Stack, Option<Token>)> = Vec::new();
    let mut i: usize = 0;
    proof {
        assert(st_view(outer@, stack, prev) =~~= seq![init_frame()]);
    }
    while i < input.len()
        invariant
            input@ == ts,
            i <= ts.len(),
            spec_run(ts, i as int) == Ok::<Seq<SFrame>, ParseError>(st_view(outer@, stack, prev)),
            wf_state(st_view(outer@, stack, prev)),
        decreases ts.len() - i,
    {
        let t = input[i];
        let ghost st0 = st_view(outer@, stack, prev);
        proof {
            assert(st0.last() == SFrame { nodes: stack.nodes@, ops: stack.ops@, prev });
            lemma_step_ok_or_err(ts, i as int, st0, t);
        }
        match validate_token(prev, t) {
            Err(msg) => {
                proof {
                    lemma_run_err(ts, i + 1, ts.len() as int);
                }
                return Err(msg);
            },
            Ok(()) => {},
        }
        match t {
            Token::Number(n) => {
                stack.push_node(Node::Num(n));
                prev = Some(t);
            },
            Token::Plus | Token::Minus | Token::Divide | Token::Multiply => {
                let op = match t {
                    Token::Plus => Operator::Plus,
                    Token::Minus => Operator::Minus,
                    Token::Divide => Operator::Divide,
                    _ => Operator::Multiply,
                };
                let p = op.get_precedence();
                stack.merge_pending(p);
                stack.push_op(op);
                prev = Some(t);
            },
            Token::OpenBracket => {
                outer.push((stack, prev));
                stack = Stack::new();
                prev = None;
            },
            Token::CloseBracket => {
                if outer.len() == 0 {
                    proof {
                        lemma_run_err(ts, i + 1, ts.len() as int);
                    }
                    return Err(String::from_str("Unexpected close bracket"));
                }
                match prev {
                    Some(Token::Number(_)) => {},
                    _ => {
                        proof {
                            lemma_run_err(ts, i + 1, ts.len() as int);
                        }
                        return Err(String::from_str("Expected Number or Open Bracket"));
                    },
                }
                let node = stack.resolve_all();
                let popped = outer.pop().unwrap();
                stack = popped.0;
                stack.push_node(node);
                prev = Some(Token::CloseBracket);
            },
        }
        proof {
            assert(st_view(outer@, stack, prev) =~~= spec_step(st0, t)->Ok_0);
            lemma_step_wf(st0, t);
        }
        i += 1;
    }
    proof {
        assert(i as int == ts.len());
        assert(st_view(outer@, stack, prev).last() == SFrame {
            nodes: stack.nodes@,
            ops: stack.ops@,
            prev,
        });
    }
    if outer.len() > 0 {
        return Err(String::from_str("Unmatched bracket"));
    }
    match prev {
        Some(Token::Number(_)) | Some(Token::CloseBracket) => {},
        _ => {
            return Err(String::from_str("Expected Number or Open Bracket"));
        },
    }
    Ok(stack.resolve_all())
}

/// Helper: one unfolding of `spec_run` at position `i + 1`.
proof fn lemma_step_ok_or_err(ts: Seq<Token>, i: int, st: Seq<SFrame>, t: Token)
    requires
        0 <= i < ts.len(),
        ts[i] == t,
        spec_run(ts, i) == Ok::<Seq<SFrame>, ParseError>(st),
    ensures
        spec_run(ts, i + 1) == spec_step(st, t),
{
}

pub open spec fn additive_token(t: Token) -> bool {
    t == Token::Plus || t == Token::Minus
}

/// A bracket-free chain `Number (additive-op Number)*`.
pub open spec fn is_additive_chain(ts: Seq<Token>) -> bool {
    &&& ts.len() % 2 == 1
    &&& forall|i: int| 0 <= i < ts.len() && i % 2 == 0 ==> (#[trigger] ts[i]) is Number
    &&& forall|i: int| 0 <= i < ts.len() && i % 2 == 1 ==> additive_token(#[trigger] ts[i])
}

/// The strictly left-associated tree of a chain: each operator applies to
/// everything on its left and the single number on its right.
pub open spec fn chain_tree(ts: Seq<Token>) -> Node
    recommends
        is_additive_chain(ts),
    decreases ts.len(),
{
    if ts.len() <= 1 {
        Node::Num(ts[0]->Number_0)
    } else {
        Node::Op(
            token_operator(ts[ts.len() - 2])->Some_0,
            Box::new(chain_tree(ts.take(ts.len() - 2))),
            Box::new(Node::Num(ts.last()->Number_0)),
        )
    }
}

/// The parser state in the middle of a chain: after the first number a
/// single scope holds the left-associated tree so far, and from the third
/// number on, that tree, the latest number, and the one pending operator.
spec fn chain_state(ts: Seq<Token>, i: int) -> Seq<SFrame> {
    if i == 1 {
        seq![
            SFrame {
                nodes: seq![Node::Num(ts[0]->Number_0)],
                ops: Seq::empty(),
                prev: Some(ts[0]),
            },
        ]
    } else {
        seq![
            SFrame {
                nodes: seq![chain_tree(ts.take(i - 2)), Node::Num(ts[i - 1]->Number_0)],
                ops: seq![token_operator(ts[i - 2])->Some_0],
                prev: Some(ts[i - 1]),
            },
        ]
    }
}

proof fn lemma_chain_run(ts: Seq<Token>, i: int)
    requires
        is_additive_chain(ts),
        1 <= i <= ts.len(),
        i % 2 == 1,
    ensures
        spec_run(ts, i) == Ok::<Seq<SFrame>, ParseError>(chain_state(ts, i)),
    decreases i,
{
    if i == 1 {
        let st0 = seq![init_frame()];
        assert(spec_run(ts, 0) == Ok::<Seq<SFrame>, ParseError>(st0));
        assert(ts[0] is Number);
        assert(spec_step(st0, ts[0])->Ok_0 =~~= chain_state(ts, 1));
    } else {
        lemma_chain_run(ts, i - 2);
        let st1 = chain_state(ts, i - 2);
        let t_op = ts[i - 2];
        let t_num = ts[i - 1];
        assert(additive_token(t_op));
        assert(t_num is Number);
        let op = token_operator(t_op)->Some_0;
        assert(spec_precedence(op) == 0);
        let f1 = st1.last();
        assert(spec_validate(f1.prev, t_op) is None);
        let d = drain_ge(f1.nodes, f1.ops, 0);
        if i == 3 {
            assert(f1.ops.len() == 0);
            assert(d == (f1.nodes, f1.ops));
            assert(d.0 =~= seq![chain_tree(ts.take(i - 2))]);
        } else {
            let op0 = token_operator(ts[i - 4])->Some_0;
            assert(additive_token(ts[i - 4]));
            assert(f1.ops =~= seq![op0]);
            assert(spec_precedence(op0) == 0);
            let m = merge_ns(f1.nodes, f1.ops);
            assert(m.0 =~= seq![
                Node::Op(
                    op0,
                    Box::new(chain_tree(ts.take(i - 4))),
                    Box::new(Node::Num(ts[i - 3]->Number_0)),
                ),
            ]);
            assert(m.1 =~= Seq::<Operator>::empty());
            assert(d == drain_ge(m.0, m.1, 0));
            assert(d == (m.0, m.1));
            let pre = ts.take(i - 2);
            assert(pre.len() == i - 2);
            assert(pre[pre.len() - 2] == ts[i - 4]);
            assert(pre.last() == ts[i - 3]);
            assert(pre.take(i - 4) =~= ts.take(i - 4));
            assert(chain_tree(pre) == Node::Op(
                op0,
                Box::new(chain_tree(ts.take(i - 4))),
                Box::new(Node::Num(ts[i - 3]->Number_0)),
            ));
            assert(d.0 =~= seq![chain_tree(ts.take(i - 2))]);
        }
        let st2 = spec_step(st1, t_op)->Ok_0;
        assert(st2 =~~= seq![
            SFrame {
                nodes: seq![chain_tree(ts.take(i - 2))],
                ops: seq![op],
                prev: Some(t_op),
            },
        ]);
        assert(spec_run(ts, i - 1) == Ok::<Seq<SFrame>, ParseError>(st2));
        let f2 = st2.last();
        assert(spec_validate(f2.prev, t_num) is None);
        let st3 = spec_step(st2, t_num)->Ok_0;
        assert(st3 =~~= chain_state(ts, i));
        assert(spec_run(ts, i) == Ok::<Seq<SFrame>, ParseError>(chain_state(ts, i)));
    }
}

/// Left-associativity: a bracket-free chain of numbers joined by `+` and `-`
/// (equal precedence) parses to the strictly left-associated tree, so it
/// evaluates left to right.
pub proof fn lemma_additive_chain_left_assoc(ts: Seq<Token>)
    requires
        is_additive_chain(ts),
    ensures
        spec_parse(ts) == Ok::<Node, ParseError>(chain_tree(ts)),
{
    let len = ts.len() as int;
    assert(len >= 1);
    lemma_chain_run(ts, len);
    let st = chain_state(ts, len);
    let f = st.last();
    assert(!expects_term(f.prev));
    if len == 1 {
        assert(resolve_ns(f.nodes, f.ops) == f.nodes.last());
        assert(ts.take(0) =~= Seq::<Token>::empty());
        assert(chain_tree(ts) == Node::Num(ts[0]->Number_0));
    } else {
        let m = merge_ns(f.nodes, f.ops);
        assert(m.0 =~= seq![
            Node::Op(
                token_operator(ts[len - 2])->Some_0,
                Box::new(chain_tree(ts.take(len - 2))),
                Box::new(Node::Num(ts[len - 1]->Number_0)),
            ),
        ]);
        assert(m.1 =~= Seq::<Operator>::empty());
        assert(resolve_ns(f.nodes, f.ops) == resolve_ns(m.0, m.1));
        assert(resolve_ns(m.0, m.1) == m.0.last());
        assert(ts.last() == ts[len - 1]);
        assert(chain_tree(ts) == m.0.last());
    }
}

} // verus!
