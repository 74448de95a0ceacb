use vstd::prelude::*;

use crate::ast::{ExpressionNode, LetStatement, ReturnStatement, RootNode, StatementNode, StatementView};
use crate::lexer::{
    describe, lemma_scan_bounds, lemma_scan_end_stays, plain, scan, tokens, Lexer, Token,
    TokenKind, TokenView,
};

verus! {

/// The token at index `i` of a stream; past its end the stream reads as
/// end-of-input.
pub open spec fn tok_at(ts: Seq<TokenView>, i: int) -> TokenView {
    if 0 <= i < ts.len() {
        ts[i]
    } else {
        plain(TokenKind::EoF)
    }
}

/// What remains of a stream from index `k` on.
pub open spec fn from_index(ts: Seq<TokenView>, k: int) -> Seq<TokenView> {
    if k < ts.len() {
        ts.skip(k)
    } else {
        seq![plain(TokenKind::EoF)]
    }
}

/// A stream that ends with the end-of-input token.
pub open spec fn ends_at_eof(ts: Seq<TokenView>) -> bool {
    ts.len() > 0 && ts.last() == plain(TokenKind::EoF)
}

/// The message recorded when the token after the current one is not of the
/// expected category.
pub open spec fn diagnostic(expected: TokenView, got: TokenView) -> Seq<char> {
    "expected next token to be: "@ + describe(expected) + ", got "@ + describe(got) + " instead"@
}

pub open spec fn messages(v: Seq<String>) -> Seq<Seq<char>> {
    v.map_values(|e: String| e@)
}

/// The index of the first semicolon or end-of-input at or after `j`.
pub open spec fn statement_end(ts: Seq<TokenView>, j: int) -> int
    decreases ts.len() - j,
{
    if 0 <= j < ts.len() && ts[j].kind != TokenKind::Semicolon && ts[j].kind != TokenKind::EoF {
        statement_end(ts, j + 1)
    } else {
        j
    }
}

/// One statement attempt whose first token is at index `i`: the statement it
/// yields, if any, the diagnostics it records, and the index of the token the
/// attempt ends on.
pub open spec fn statement_at(ts: Seq<TokenView>, i: int) -> (
    Option<StatementView>,
    Seq<Seq<char>>,
    int,
) {
    let cur = tok_at(ts, i);
    if cur.kind == TokenKind::Let {
        let name = tok_at(ts, i + 1);
        if name.kind != TokenKind::Identifier {
            (None, seq![diagnostic(plain(TokenKind::Identifier), name)], i)
        } else if tok_at(ts, i + 2).kind != TokenKind::Assign {
            (None, seq![diagnostic(plain(TokenKind::Assign), tok_at(ts, i + 2))], i + 1)
        } else {
            (Some(StatementView::Let(name.text)), seq![], statement_end(ts, i + 2))
        }
    } else if cur.kind == TokenKind::Return {
        (Some(StatementView::Return), seq![], statement_end(ts, i + 1))
    } else {
        (None, seq![], i)
    }
}

pub open spec fn option_seq(o: Option<StatementView>) -> Seq<StatementView> {
    match o {
        Some(s) => seq![s],
        None => seq![],
    }
}

/// The statements and diagnostics of a parse that starts with the current
/// token at index `i`.
pub open spec fn parse_from(ts: Seq<TokenView>, i: int) -> (Seq<StatementView>, Seq<Seq<char>>)
    decreases ts.len() + 1 - i,
    via parse_from_decreases
{
    if tok_at(ts, i).kind == TokenKind::EoF {
        (seq![], seq![])
    } else {
        let (st, d, j) = statement_at(ts, i);
        let (rest, rd) = parse_from(ts, j + 1);
        (option_seq(st) + rest, d + rd)
    }
}

proof fn lemma_statement_end_bounds(ts: Seq<TokenView>, j: int)
    ensures
        j <= statement_end(ts, j),
        0 <= j <= ts.len() ==> statement_end(ts, j) <= ts.len(),
    decreases ts.len() - j,
{
    if 0 <= j < ts.len() && ts[j].kind != TokenKind::Semicolon && ts[j].kind != TokenKind::EoF {
        lemma_statement_end_bounds(ts, j + 1);
    }
}

#[via_fn]
proof fn parse_from_decreases(ts: Seq<TokenView>, i: int) {
    if tok_at(ts, i).kind != TokenKind::EoF {
        lemma_statement_end_bounds(ts, i + 1);
        lemma_statement_end_bounds(ts, i + 2);
        let j = statement_at(ts, i).2;
        assert(i <= j <= ts.len());
    }
}

/// A statement attempt ends at or after its first token and no later than
/// the closing end-of-input.
proof fn lemma_statement_at_bounds(ts: Seq<TokenView>, i: int)
    requires
        ends_at_eof(ts),
        0 <= i,
        tok_at(ts, i).kind != TokenKind::EoF,
    ensures
        i <= statement_at(ts, i).2 < ts.len() - 1 || statement_at(ts, i).2 == ts.len() - 1,
{
    lemma_statement_end_within(ts, i + 1);
    if tok_at(ts, i + 1).kind == TokenKind::Identifier {
        lemma_statement_end_within(ts, i + 2);
    }
}

proof fn lemma_statement_end_within(ts: Seq<TokenView>, j: int)
    requires
        ends_at_eof(ts),
        0 <= j <= ts.len() - 1,
    ensures
        j <= statement_end(ts, j) <= ts.len() - 1,
    decreases ts.len() - j,
{
    if ts[j].kind != TokenKind::Semicolon && ts[j].kind != TokenKind::EoF {
        lemma_statement_end_within(ts, j + 1);
    }
}

/// Every token stream ends with exactly one end-of-input token.
pub proof fn lemma_tokens_end_at_eof(s: Seq<u8>, p: int)
    requires
        0 <= p <= s.len(),
    ensures
        ends_at_eof(tokens(s, p)),
    decreases s.len() - p,
{
    lemma_scan_bounds(s, p);
    let (t, n) = scan(s, p);
    if t.kind != TokenKind::EoF {
        lemma_tokens_end_at_eof(s, n);
    }
}

/// Reading a token from a scanner whose remaining stream is what is left of
/// `ts` from `k` returns the token at `k` and leaves what is left from `k + 1`.
proof fn lemma_advance(s: Seq<u8>, p: int, ts: Seq<TokenView>, k: int)
    requires
        0 <= p <= s.len(),
        0 <= k,
        ends_at_eof(ts),
        tokens(s, p) == from_index(ts, k),
    ensures
        scan(s, p).0 == tok_at(ts, k),
        0 <= scan(s, p).1 <= s.len(),
        tokens(s, scan(s, p).1) == from_index(ts, k + 1),
{
    lemma_scan_bounds(s, p);
    let (t, n) = scan(s, p);
    assert(tokens(s, p)[0] == t);
    if t.kind == TokenKind::EoF {
        lemma_scan_end_stays(s, p);
        assert(tokens(s, n) =~= seq![t]);
        if k < ts.len() {
            assert(ts.skip(k).len() == 1);
            assert(k == ts.len() - 1);
        }
        assert(t == plain(TokenKind::EoF));
    } else {
        assert(tokens(s, p) == seq![t] + tokens(s, n));
        if k < ts.len() {
            assert(ts.skip(k)[0] == ts[k]);
            assert((seq![t] + tokens(s, n)).skip(1) =~= tokens(s, n));
            assert(ts.skip(k).skip(1) =~= ts.skip(k + 1));
        } else {
            assert(false);
        }
    }
}

/// A recursive-descent parser for `let` and `return` statements over a
/// scanner's tokens, with the current token and one token of lookahead.
pub struct Parser {
    l: Lexer,
    curr: Token,
    peek: Token,
    errors: Vec<String>,
    stream: Ghost<Seq<TokenView>>,
    index: Ghost<int>,
}

impl Parser {
    /// The whole token stream this parser reads.
    pub closed spec fn stream(&self) -> Seq<TokenView> {
        self.stream@
    }

    /// The index of the current token in the stream.
    pub closed spec fn index(&self) -> int {
        self.index@
    }

    /// The diagnostics recorded so far, oldest first.
    pub closed spec fn diagnostics(&self) -> Seq<Seq<char>> {
        messages(self.errors@)
    }

    /// The diagnostics recorded so far, oldest first.
    pub fn errors(&self) -> (r: &Vec<String>)
        ensures
            messages(r@) == self.diagnostics(),
    {
        &self.errors
    }

    pub closed spec fn wf(&self) -> bool {
        &&& self.l.wf()
        &&& ends_at_eof(self.stream@)
        &&& 0 <= self.index@
        &&& self.curr@ == tok_at(self.stream@, self.index@)
        &&& self.peek@ == tok_at(self.stream@, self.index@ + 1)
        &&& 0 <= self.l.pos() <= self.l.source().len()
        &&& tokens(self.l.source(), self.l.pos()) == from_index(self.stream@, self.index@ + 2)
    }

    /// A parser over the tokens that `l` has yet to read, with the first two
    /// of them as the current token and the lookahead.
    pub fn new(l: Lexer) -> (p: Parser)
        requires
            l.wf(),
        ensures
            p.wf(),
            p.stream() == tokens(l.source(), l.pos()),
            p.index() == 0,
            p.diagnostics() == Seq::<Seq<char>>::empty(),
    {
        let mut l = l;
        proof {
            l.lemma_pos_in_bounds();
        }
        let ghost s = l.source();
        let ghost ts = tokens(s, l.pos());
        proof {
            lemma_tokens_end_at_eof(s, l.pos());
            assert(from_index(ts, 0) =~= ts);
            lemma_advance(s, l.pos(), ts, 0);
        }
        let curr = l.next_token();
        proof {
            lemma_advance(s, l.pos(), ts, 1);
        }
        let peek = l.next_token();
        Parser { l, curr, peek, errors: Vec::new(), stream: Ghost(ts), index: Ghost(0) }
    }

    fn peek_error(&mut self, expected: Token)
        requires
            old(self).wf(),
        ensures
            final(self).wf(),
            final(self).stream() == old(self).stream(),
            final(self).index() == old(self).index(),
            final(self).diagnostics() == old(self).diagnostics().push(
                diagnostic(expected@, old(self).peek@),
            ),
    {
        let mut msg = String::from_str("expected next token to be: ");
        let e = expected.describe();
        msg.append(e.as_str());
        msg.append(", got ");
        let g = self.peek.describe();
        msg.append(g.as_str());
        msg.append(" instead");
        self.errors.push(msg);
        assert(messages(self.errors@) =~= old(self).diagnostics().push(
            diagnostic(expected@, old(self).peek@),
        ));
    }

    fn next_token(&mut self)
        requires
            old(self).wf(),
        ensures
            final(self).wf(),
            final(self).stream() == old(self).stream(),
            final(self).index() == old(self).index() + 1,
            final(self).diagnostics() == old(self).diagnostics(),
    {
        proof {
            lemma_advance(self.l.source(), self.l.pos(), self.stream@, self.index@ + 2);
        }
        let mut next = self.l.next_token();
        std::mem::swap(&mut self.peek, &mut next);
        self.curr = next;
        self.index = Ghost(self.index@ + 1);
    }

    /// Moves on when the lookahead has the category of `t`, whatever text
    /// either carries; otherwise records a diagnostic and stays.
    fn expect_next(&mut self, t: Token) -> (ok: bool)
        requires
            old(self).wf(),
        ensures
            final(self).wf(),
            final(self).stream() == old(self).stream(),
            ok == (old(self).peek@.kind == t@.kind),
            ok ==> final(self).index() == old(self).index() + 1 && final(self).diagnostics()
                == old(self).diagnostics(),
            !ok ==> final(self).index() == old(self).index() && final(self).diagnostics()
                == old(self).diagnostics().push(diagnostic(t@, old(self).peek@)),
    {
        if self.peek.kind() == t.kind() {
            self.next_token();
            true
        } else {
            self.peek_error(t);
            false
        }
    }

    /// Moves on to the first semicolon or end-of-input at or after the
    /// current token.
    fn skip_to_statement_end(&mut self)
        requires
            old(self).wf(),
        ensures
            final(self).wf(),
            final(self).stream() == old(self).stream(),
            final(self).index() == statement_end(old(self).stream(), old(self).index()),
            final(self).diagnostics() == old(self).diagnostics(),
    {
        let ghost ts = self.stream@;
        let ghost start = self.index@;
        while !(matches!(self.curr, Token::Semicolon) || matches!(self.curr, Token::EoF))
            invariant
                self.wf(),
                self.stream@ == ts,
                messages(self.errors@) == old(self).diagnostics(),
                statement_end(ts, self.index@) == statement_end(ts, start),
            decreases ts.len() - self.index@,
        {
            self.next_token();
        }
    }

    fn parse_let_statement(&mut self) -> (r: Option<LetStatement>)
        requires
            old(self).wf(),
            old(self).curr@.kind == TokenKind::Let,
        ensures
            final(self).wf(),
            final(self).stream() == old(self).stream(),
            ({
                let (st, d, j) = statement_at(old(self).stream(), old(self).index());
                &&& final(self).index() == j
                &&& final(self).diagnostics() == old(self).diagnostics() + d
                &&& match r {
                    Some(s) => st == Some(StatementView::Let(s.name@)),
                    None => st is None,
                }
            }),
    {
        if !self.expect_next(Token::Identifier(String::new())) {
            return None;
        }
        let ident = match &self.curr {
            Token::Identifier(name) => name.clone(),
            _ => {
                return None;
            },
        };
        if !self.expect_next(Token::Assign) {
            return None;
        }
        self.skip_to_statement_end();
        assert(messages(self.errors@) =~= old(self).diagnostics() + seq![]);
        Some(LetStatement { name: ident, value: ExpressionNode })
    }

    fn parse_return_statement(&mut self) -> (r: ReturnStatement)
        requires
            old(self).wf(),
            old(self).curr@.kind == TokenKind::Return,
        ensures
            final(self).wf(),
            final(self).stream() == old(self).stream(),
            final(self).index() == statement_at(old(self).stream(), old(self).index()).2,
            final(self).diagnostics() == old(self).diagnostics(),
    {
        self.next_token();
        self.skip_to_statement_end();
        ReturnStatement { return_value: ExpressionNode }
    }

    fn parse_statement(&mut self) -> (r: Option<StatementNode>)
        requires
            old(self).wf(),
        ensures
            final(self).wf(),
            final(self).stream() == old(self).stream(),
            ({
                let (st, d, j) = statement_at(old(self).stream(), old(self).index());
                &&& final(self).index() == j
                &&& final(self).diagnostics() == old(self).diagnostics() + d
                &&& match r {
                    Some(s) => st == Some(s@),
                    None => st is None,
                }
            }),
    {
        match self.curr {
            Token::Let => match self.parse_let_statement() {
                Some(s) => Some(StatementNode::Let(s)),
                None => None,
            },
            Token::Return => {
                let s = self.parse_return_statement();
                assert(messages(self.errors@) =~= old(self).diagnostics() + seq![]);
                Some(StatementNode::Return(s))
            },
            _ => {
                assert(messages(self.errors@) =~= old(self).diagnostics() + seq![]);
                None
            },
        }
    }

    /// Parses statements until the current token is end-of-input. A statement
    /// that cannot be parsed adds no node; the diagnostics it records are
    /// appended to `errors`.
    pub fn parse_root(&mut self) -> (root: RootNode)
        requires
            old(self).wf(),
        ensures
            final(self).wf(),
            final(self).stream() == old(self).stream(),
            root@ == parse_from(old(self).stream(), old(self).index()).0,
            final(self).diagnostics() == old(self).diagnostics() + parse_from(
                old(self).stream(),
                old(self).index(),
            ).1,
    {
        let ghost ts = self.stream@;
        let ghost target = parse_from(ts, self.index@);
        let mut root = RootNode { statements: Vec::new() };
        assert(root@ =~= seq![]);
        assert(messages(self.errors@) + target.1 =~= old(self).diagnostics() + target.1);
        while !matches!(self.curr, Token::EoF)
            invariant
                self.wf(),
                self.stream@ == ts,
                root@ + parse_from(ts, self.index@).0 == target.0,
                messages(self.errors@) + parse_from(ts, self.index@).1 == old(self).diagnostics() + target.1,
            decreases ts.len() - self.index@,
        {
            let ghost i = self.index@;
            let ghost errors_before = messages(self.errors@);
            let ghost root_before = root@;
            let st = self.parse_statement();
            let ghost j = self.index@;
            proof {
                lemma_statement_at_bounds(ts, i);
            }
            if let Some(st_node) = st {
                root.statements.push(st_node);
            }
            self.next_token();
            proof {
                let (sv, d, jj) = statement_at(ts, i);
                let (rest, rd) = parse_from(ts, j + 1);
                assert(parse_from(ts, i) == (option_seq(sv) + rest, d + rd));
                assert(root@ =~= root_before + option_seq(sv));
                assert(root_before + (option_seq(sv) + rest) =~= root@ + rest);
                assert(errors_before + (d + rd) =~= messages(self.errors@) + rd);
            }
        }
        root
    }
}

} // verus!
