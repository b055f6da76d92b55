use vstd::prelude::*;

use crate::ast::{
    block_view, if_stmt_view, stmt_view, while_stmt_view, Block, Exportable, ExportableView,
    IfStmt, IfStmtView, NameValuePair, NameValuePairView, Program, Stmt, StmtView, WhileStmt,
    WhileStmtView,
};
use crate::command::{Command, CommandView};
use crate::lexer::{all_blank, lex_all, Kind, KindTag, KindView, LexError, Token};
use crate::word::{is_valid_name_spec, name_value_pair_spec, Word, WordView};

verus! {

/// Why parsing stopped.
#[derive(Debug, PartialEq)]
pub enum ParseError {
    /// The lexer rejected the input.
    Lex(LexError),
    /// An unexpected token (`None`: end of input) where `expected` was
    /// required.
    Unexpected(Expectation, Option<Token>),
    /// `export` with nothing after it.
    EmptyExport,
    /// A word in an `export` list that is neither a name nor `NAME=value`.
    NotAValidName(Word),
    /// End of input in the middle of a block.
    UnclosedBlock,
}

/// What the parser was looking for when it found something else.
#[derive(Clone, Copy, Debug, PartialEq, Eq, Structural)]
pub enum Expectation {
    Semi,
    LeftBrace,
    Statement,
    Command,
}

pub open spec fn kw_if() -> Seq<u8> {
    seq![105u8, 102u8]
}

pub open spec fn kw_while() -> Seq<u8> {
    seq![119u8, 104u8, 105u8, 108u8, 101u8]
}

pub open spec fn kw_export() -> Seq<u8> {
    seq![101u8, 120u8, 112u8, 111u8, 114u8, 116u8]
}

pub open spec fn kw_else() -> Seq<u8> {
    seq![101u8, 108u8, 115u8, 101u8]
}

fn kw_if_bytes() -> (r: Vec<u8>)
    ensures
        r@ == kw_if(),
{
    let mut r: Vec<u8> = Vec::new();
    r.push(105);
    r.push(102);
    proof {
        assert(r@ =~= kw_if());
    }
    r
}

fn kw_while_bytes() -> (r: Vec<u8>)
    ensures
        r@ == kw_while(),
{
    let mut r: Vec<u8> = Vec::new();
    r.push(119);
    r.push(104);
    r.push(105);
    r.push(108);
    r.push(101);
    proof {
        assert(r@ =~= kw_while());
    }
    r
}

fn kw_export_bytes() -> (r: Vec<u8>)
    ensures
        r@ == kw_export(),
{
    let mut r: Vec<u8> = Vec::new();
    r.push(101);
    r.push(120);
    r.push(112);
    r.push(111);
    r.push(114);
    r.push(116);
    proof {
        assert(r@ =~= kw_export());
    }
    r
}

fn kw_else_bytes() -> (r: Vec<u8>)
    ensures
        r@ == kw_else(),
{
    let mut r: Vec<u8> = Vec::new();
    r.push(101);
    r.push(108);
    r.push(115);
    r.push(101);
    proof {
        assert(r@ =~= kw_else());
    }
    r
}

/// The unquoted keyword `kw` as a token kind.
pub open spec fn is_keyword(k: KindView, kw: Seq<u8>) -> bool {
    match k {
        KindView::Word(w) => w.value == kw && w.quote is None,
        _ => false,
    }
}

/// An empty command headed by `name`, as `parse_command` starts one.
pub open spec fn base_command(name: WordView) -> CommandView {
    CommandView {
        name,
        arguments: Seq::empty(),
        redirects: Seq::empty(),
        env: Seq::empty(),
        pipeline: None,
    }
}

/// The grammar, one spec function per production, each mapping a token
/// position to the parsed value and the position after it; `None` is a
/// parse error. The recursion guards (`p1 < pos`-style checks) are never
/// taken on real results, whose positions only grow; they discharge the
/// termination measure.
///
/// program := ( stmt `;` )* to end of input.
pub open spec fn p_program(ts: Seq<Token>, pos: int) -> Option<(Seq<StmtView>, int)>
    decreases ts.len() - pos, 7int,
{
    if !(0 <= pos <= ts.len()) {
        None
    } else if pos == ts.len() {
        Some((Seq::empty(), pos))
    } else {
        match p_stmt(ts, pos) {
            None => None,
            Some((sv, p1)) => {
                if !(pos <= p1 < ts.len()) {
                    None
                } else if !(ts[p1].kind@ is Semi) {
                    None
                } else {
                    match p_program(ts, p1 + 1) {
                        None => None,
                        Some((rest, p2)) => Some((seq![sv] + rest, p2)),
                    }
                }
            },
        }
    }
}

/// block := `{` ( stmt `;` )* `}`.
pub open spec fn p_block(ts: Seq<Token>, pos: int) -> Option<(Seq<StmtView>, int)>
    decreases ts.len() - pos, 6int,
{
    if !(0 <= pos < ts.len()) {
        None
    } else if !(ts[pos].kind@ is LeftBrace) {
        None
    } else {
        p_block_items(ts, pos + 1)
    }
}

pub open spec fn p_block_items(ts: Seq<Token>, pos: int) -> Option<(Seq<StmtView>, int)>
    decreases ts.len() - pos, 5int,
{
    if !(0 <= pos < ts.len()) {
        None
    } else if ts[pos].kind@ is RightBrace {
        Some((Seq::empty(), pos + 1))
    } else {
        match p_stmt(ts, pos) {
            None => None,
            Some((sv, p1)) => {
                if !(pos <= p1 < ts.len()) {
                    None
                } else if !(ts[p1].kind@ is Semi) {
                    None
                } else {
                    match p_block_items(ts, p1 + 1) {
                        None => None,
                        Some((rest, p2)) => Some((seq![sv] + rest, p2)),
                    }
                }
            },
        }
    }
}

/// stmt := `if` ... | `while` ... | `export` ... | assignment-or-command,
/// dispatched on the first word's bytes.
pub open spec fn p_stmt(ts: Seq<Token>, pos: int) -> Option<(StmtView, int)>
    decreases ts.len() - pos, 4int,
{
    if !(0 <= pos < ts.len()) {
        None
    } else {
        match ts[pos].kind@ {
            KindView::Word(w) => {
                if w.value == kw_if() {
                    match p_if(ts, pos + 1) {
                        None => None,
                        Some((iv, p1)) => Some((StmtView::If(iv), p1)),
                    }
                } else if w.value == kw_while() {
                    match p_while(ts, pos + 1) {
                        None => None,
                        Some((wv, p1)) => Some((StmtView::While(wv), p1)),
                    }
                } else if w.value == kw_export() {
                    match p_export(ts, pos + 1, Seq::empty()) {
                        None => None,
                        Some((es, p1)) => Some((StmtView::Export(es), p1)),
                    }
                } else {
                    p_assignment_or_command(ts, pos + 1, w)
                }
            },
            _ => None,
        }
    }
}

/// if-stmt := cmd block ( `else` ( `if` if-stmt | block ) )?; the `else`
/// and `if` words must be unquoted.
pub open spec fn p_if(ts: Seq<Token>, pos: int) -> Option<(IfStmtView, int)>
    decreases ts.len() - pos, 3int,
{
    match p_command(ts, pos, None) {
        None => None,
        Some((test, p1)) => {
            if !(pos < p1 <= ts.len()) {
                None
            } else {
                match p_block(ts, p1) {
                    None => None,
                    Some((cons, p2)) => {
                        if !(p1 <= p2 <= ts.len()) {
                            None
                        } else if p2 < ts.len() && is_keyword(ts[p2].kind@, kw_else()) {
                            if p2 + 1 < ts.len() && is_keyword(ts[p2 + 1].kind@, kw_if()) {
                                match p_if(ts, p2 + 2) {
                                    None => None,
                                    Some((nested, p3)) => Some(
                                        (
                                            IfStmtView {
                                                test,
                                                consequent: cons,
                                                alternate: Some(seq![StmtView::If(nested)]),
                                            },
                                            p3,
                                        ),
                                    ),
                                }
                            } else {
                                match p_block(ts, p2 + 1) {
                                    None => None,
                                    Some((alt, p3)) => Some(
                                        (
                                            IfStmtView {
                                                test,
                                                consequent: cons,
                                                alternate: Some(alt),
                                            },
                                            p3,
                                        ),
                                    ),
                                }
                            }
                        } else {
                            Some((IfStmtView { test, consequent: cons, alternate: None }, p2))
                        }
                    },
                }
            }
        },
    }
}

/// while-stmt := cmd block.
pub open spec fn p_while(ts: Seq<Token>, pos: int) -> Option<(WhileStmtView, int)>
    decreases ts.len() - pos, 3int,
{
    match p_command(ts, pos, None) {
        None => None,
        Some((test, p1)) => {
            if !(pos < p1 <= ts.len()) {
                None
            } else {
                match p_block(ts, p1) {
                    None => None,
                    Some((body, p2)) => Some((WhileStmtView { test, body }, p2)),
                }
            }
        },
    }
}

/// export := ( NAME | NAME=value )+, collected until the first non-word
/// token; an invalid word or an empty list is an error.
pub open spec fn p_export(ts: Seq<Token>, pos: int, acc: Seq<ExportableView>) -> Option<
    (Seq<ExportableView>, int),
>
    decreases ts.len() - pos, 2int,
{
    if 0 <= pos < ts.len() && ts[pos].kind@ is Word {
        let w = ts[pos].kind@->Word_0;
        match name_value_pair_spec(w) {
            Some(p) => p_export(
                ts,
                pos + 1,
                acc.push(ExportableView { name: p.name, value: Some(p.value) }),
            ),
            None => if is_valid_name_spec(w.value) {
                p_export(ts, pos + 1, acc.push(ExportableView { name: w, value: None }))
            } else {
                None
            },
        }
    } else {
        if acc.len() == 0 {
            None
        } else {
            Some((acc, pos))
        }
    }
}

/// After a first `NAME=value` word: further pairs collect; the first
/// non-pair word heads a command that carries them as its scoped
/// environment; end of statement makes them a plain assignment.
pub open spec fn p_pairs(ts: Seq<Token>, pos: int, acc: Seq<NameValuePairView>) -> Option<
    (StmtView, int),
>
    decreases ts.len() - pos, 2int,
{
    if 0 <= pos < ts.len() && ts[pos].kind@ is Word {
        let w = ts[pos].kind@->Word_0;
        match name_value_pair_spec(w) {
            Some(p) => p_pairs(ts, pos + 1, acc.push(p)),
            None => match p_command(ts, pos + 1, Some(w)) {
                None => None,
                Some((c, p1)) => Some(
                    (StmtView::Command(CommandView { env: acc, ..c }), p1),
                ),
            },
        }
    } else {
        Some((StmtView::Assignment(acc), pos))
    }
}

/// The statement's first word: a `NAME=value` pair starts a pair list,
/// anything else heads a command.
pub open spec fn p_assignment_or_command(ts: Seq<Token>, pos: int, w: WordView) -> Option<
    (StmtView, int),
>
    decreases ts.len() - pos, 3int,
{
    match name_value_pair_spec(w) {
        Some(p) => p_pairs(ts, pos, seq![p]),
        None => match p_command(ts, pos, Some(w)) {
            None => None,
            Some((c, p1)) => Some((StmtView::Command(c), p1)),
        },
    }
}

/// cmd := word ( word | redirect )* ( `|` cmd )?; the head word is either
/// handed in (already consumed) or read here.
pub open spec fn p_command(ts: Seq<Token>, pos: int, head: Option<WordView>) -> Option<
    (CommandView, int),
>
    decreases ts.len() - pos, 1int,
{
    match head {
        Some(w) => p_command_tail(ts, pos, base_command(w)),
        None => {
            if 0 <= pos < ts.len() && ts[pos].kind@ is Word {
                p_command_tail(ts, pos + 1, base_command(ts[pos].kind@->Word_0))
            } else {
                None
            }
        },
    }
}

/// Words append as arguments and redirect tokens as redirections, in
/// source order; a pipe hands the rest of the chain to the successor.
pub open spec fn p_command_tail(ts: Seq<Token>, pos: int, c: CommandView) -> Option<
    (CommandView, int),
>
    decreases ts.len() - pos, 0int,
{
    if !(0 <= pos) {
        None
    } else if pos >= ts.len() {
        Some((c, pos))
    } else {
        match ts[pos].kind@ {
            KindView::Word(w) => p_command_tail(
                ts,
                pos + 1,
                CommandView { arguments: c.arguments.push(w), ..c },
            ),
            KindView::Redirect(rd) => p_command_tail(
                ts,
                pos + 1,
                CommandView { redirects: c.redirects.push(rd), ..c },
            ),
            KindView::Pipe => match p_command(ts, pos + 1, None) {
                None => None,
                Some((tail, p1)) => Some(
                    (CommandView { pipeline: Some(Box::new(tail)), ..c }, p1),
                ),
            },
            _ => Some((c, pos)),
        }
    }
}

/// A whole token stream as a program: every token consumed.
pub open spec fn parse_tokens_spec(ts: Seq<Token>) -> Option<Seq<StmtView>> {
    match p_program(ts, 0) {
        Some((p, _)) => Some(p),
        None => None,
    }
}

struct Parser {
    tokens: Vec<Token>,
    pos: usize,
}

impl Parser {
    pub closed spec fn ts(&self) -> Seq<Token> {
        self.tokens@
    }

    pub closed spec fn at(&self) -> int {
        self.pos as int
    }

    pub closed spec fn wf(&self) -> bool {
        &&& 0 <= self.pos <= self.tokens@.len()
        &&& self.tokens@.len() <= usize::MAX
    }

    fn new(tokens: Vec<Token>) -> (r: Self)
        ensures
            r.wf(),
            r.ts() == tokens@,
            r.at() == 0,
    {
        let n = tokens.len();
        proof {
            assert(tokens@.len() == n as int);
        }
        Self { tokens, pos: 0 }
    }

    fn parse(&mut self) -> (r: Result<Program, ParseError>)
        requires
            old(self).wf(),
        ensures
            final(self).ts() == old(self).ts(),
            match r {
                Ok(program) => p_program(old(self).ts(), old(self).at()) == Some(
                    (block_view(program@), old(self).ts().len() as int),
                ),
                Err(_) => p_program(old(self).ts(), old(self).at()) is None,
            },
    {
        let mut program: Vec<Stmt> = Vec::new();
        proof {
            assert(block_view(program@) =~= Seq::<StmtView>::empty());
        }
        loop
            invariant
                self.wf(),
                self.ts() == old(self).ts(),
                old(self).at() <= self.at(),
                p_program(old(self).ts(), old(self).at()) == (match p_program(
                    self.ts(),
                    self.at(),
                ) {
                    Some((rest, p)) => Some((block_view(program@) + rest, p)),
                    None => None::<(Seq<StmtView>, int)>,
                }),
            decreases self.ts().len() - self.at(),
        {
            if self.pos >= self.tokens.len() {
                proof {
                    assert(block_view(program@) + Seq::<StmtView>::empty() =~= block_view(
                        program@,
                    ));
                }
                return Ok(program);
            }
            let stmt = match self.parse_stmt() {
                Ok(s) => s,
                Err(e) => {
                    return Err(e);
                },
            };
            match self.expect_semi() {
                Ok(_) => {},
                Err(e) => {
                    return Err(e);
                },
            }
            let ghost program0 = program@;
            let ghost sv = stmt@;
            program.push(stmt);
            proof {
                assert(block_view(program@) =~= block_view(program0).push(sv));
                match p_program(self.ts(), self.at()) {
                    Some((rest, p)) => {
                        assert(block_view(program@) + rest =~= block_view(program0) + (seq![sv]
                            + rest));
                    },
                    None => {},
                }
            }
        }
    }

    /// Consumes the Semi that must follow every statement.
    fn expect_semi(&mut self) -> (r: Result<(), ParseError>)
        requires
            old(self).wf(),
        ensures
            final(self).ts() == old(self).ts(),
            final(self).wf(),
            match r {
                Ok(_) => {
                    &&& old(self).at() < old(self).ts().len()
                    &&& old(self).ts()[old(self).at()].kind@ is Semi
                    &&& final(self).at() == old(self).at() + 1
                },
                Err(_) => !(old(self).at() < old(self).ts().len() && old(self).ts()[old(
                    self,
                ).at()].kind@ is Semi),
            },
    {
        if self.pos >= self.tokens.len() {
            return Err(ParseError::Unexpected(Expectation::Semi, None));
        }
        let is_semi = match &self.tokens[self.pos].kind {
            Kind::Semi => true,
            _ => false,
        };
        if !is_semi {
            let found = Token::new(
                self.tokens[self.pos].kind.duplicate(),
                self.tokens[self.pos].line,
            );
            return Err(ParseError::Unexpected(Expectation::Semi, Some(found)));
        }
        self.pos = self.pos + 1;
        Ok(())
    }

    fn parse_stmt(&mut self) -> (r: Result<Stmt, ParseError>)
        requires
            old(self).wf(),
        ensures
            final(self).ts() == old(self).ts(),
            final(self).wf(),
            match r {
                Ok(s) => p_stmt(old(self).ts(), old(self).at()) == Some((s@, final(self).at()))
                    && old(self).at() < final(self).at(),
                Err(_) => p_stmt(old(self).ts(), old(self).at()) is None,
            },
        decreases old(self).ts().len() - old(self).at(), 4int,
    {
        if self.pos >= self.tokens.len() {
            return Err(ParseError::Unexpected(Expectation::Statement, None));
        }
        let word = match &self.tokens[self.pos].kind {
            Kind::Word(w) => w.duplicate(),
            kind => {
                let found = Token::new(kind.duplicate(), self.tokens[self.pos].line);
                return Err(ParseError::Unexpected(Expectation::Statement, Some(found)));
            },
        };
        self.pos = self.pos + 1;

        let kw = kw_if_bytes();
        if crate::environment::compare_bytes(word.as_bytes(), kw.as_slice()) {
            return match self.parse_if_stmt() {
                Ok(st) => {
                    let ghost stv = st;
                    let stmt = Stmt::If(st);
                    proof {
                        assert(stmt@ == StmtView::If(if_stmt_view(stv)));
                    }
                    Ok(stmt)
                },
                Err(e) => Err(e),
            };
        }
        let kw = kw_while_bytes();
        if crate::environment::compare_bytes(word.as_bytes(), kw.as_slice()) {
            return match self.parse_while_stmt() {
                Ok(st) => {
                    let ghost stv = st;
                    let stmt = Stmt::While(st);
                    proof {
                        assert(stmt@ == StmtView::While(while_stmt_view(stv)));
                    }
                    Ok(stmt)
                },
                Err(e) => Err(e),
            };
        }
        let kw = kw_export_bytes();
        if crate::environment::compare_bytes(word.as_bytes(), kw.as_slice()) {
            return match self.parse_export_stmt() {
                Ok(es) => {
                    let ghost esv = es@;
                    let stmt = Stmt::Export(es);
                    proof {
                        assert(stmt@ == StmtView::Export(
                            esv.map_values(|e: Exportable| e@),
                        ));
                    }
                    Ok(stmt)
                },
                Err(e) => Err(e),
            };
        }
        self.parse_assignment_or_command(word)
    }

    fn parse_if_stmt(&mut self) -> (r: Result<IfStmt, ParseError>)
        requires
            old(self).wf(),
        ensures
            final(self).ts() == old(self).ts(),
            final(self).wf(),
            match r {
                Ok(st) => p_if(old(self).ts(), old(self).at()) == Some(
                    (if_stmt_view(st), final(self).at()),
                ) && old(self).at() < final(self).at(),
                Err(_) => p_if(old(self).ts(), old(self).at()) is None,
            },
        decreases old(self).ts().len() - old(self).at(), 3int,
    {
        let test = match self.parse_command(None) {
            Ok(c) => c,
            Err(e) => {
                return Err(e);
            },
        };
        let consequent = match self.parse_block() {
            Ok(b) => b,
            Err(e) => {
                return Err(e);
            },
        };

        let kw = kw_else_bytes();
        let has_else = self.peek_keyword(kw.as_slice());
        if !has_else {
            let ghost testv = test@;
            let ghost consv = consequent@;
            let st = IfStmt::new(test, consequent, None);
            proof {
                assert(if_stmt_view(st) == (IfStmtView {
                    test: testv,
                    consequent: block_view(consv),
                    alternate: None::<Seq<StmtView>>,
                }));
            }
            return Ok(st);
        }
        self.pos = self.pos + 1;

        let kw2 = kw_if_bytes();
        let has_if = self.peek_keyword(kw2.as_slice());
        if has_if {
            self.pos = self.pos + 1;
            let nested = match self.parse_if_stmt() {
                Ok(n) => n,
                Err(e) => {
                    return Err(e);
                },
            };
            let ghost nv = nested;
            let mut alt: Vec<Stmt> = Vec::new();
            alt.push(Stmt::If(nested));
            proof {
                assert(alt@[0] == Stmt::If(nv));
                assert(block_view(alt@) =~= seq![StmtView::If(if_stmt_view(nv))]);
            }
            let ghost testv = test@;
            let ghost consv = consequent@;
            let ghost altv = alt@;
            let st = IfStmt::new(test, consequent, Some(alt));
            proof {
                assert(if_stmt_view(st) == (IfStmtView {
                    test: testv,
                    consequent: block_view(consv),
                    alternate: Some(block_view(altv)),
                }));
            }
            Ok(st)
        } else {
            let alt = match self.parse_block() {
                Ok(b) => b,
                Err(e) => {
                    return Err(e);
                },
            };
            let ghost testv = test@;
            let ghost consv = consequent@;
            let ghost altv = alt@;
            let st = IfStmt::new(test, consequent, Some(alt));
            proof {
                assert(if_stmt_view(st) == (IfStmtView {
                    test: testv,
                    consequent: block_view(consv),
                    alternate: Some(block_view(altv)),
                }));
            }
            Ok(st)
        }
    }

    /// Is the next token the unquoted keyword `kw`? (Nothing is consumed.)
    fn peek_keyword(&self, kw: &[u8]) -> (r: bool)
        requires
            self.wf(),
        ensures
            r == (self.at() < self.ts().len() && is_keyword(
                self.ts()[self.at()].kind@,
                kw@,
            )),
    {
        if self.pos >= self.tokens.len() {
            return false;
        }
        match &self.tokens[self.pos].kind {
            Kind::Word(w) => w.quote.is_none() && crate::environment::compare_bytes(
                w.as_bytes(),
                kw,
            ),
            _ => false,
        }
    }

    fn parse_while_stmt(&mut self) -> (r: Result<WhileStmt, ParseError>)
        requires
            old(self).wf(),
        ensures
            final(self).ts() == old(self).ts(),
            final(self).wf(),
            match r {
                Ok(st) => p_while(old(self).ts(), old(self).at()) == Some(
                    (while_stmt_view(st), final(self).at()),
                ) && old(self).at() < final(self).at(),
                Err(_) => p_while(old(self).ts(), old(self).at()) is None,
            },
        decreases old(self).ts().len() - old(self).at(), 3int,
    {
        let test = match self.parse_command(None) {
            Ok(c) => c,
            Err(e) => {
                return Err(e);
            },
        };
        let body = match self.parse_block() {
            Ok(b) => b,
            Err(e) => {
                return Err(e);
            },
        };
        let ghost testv = test@;
        let ghost bodyv = body@;
        let st = WhileStmt::new(test, body);
        proof {
            assert(while_stmt_view(st) == (WhileStmtView {
                test: testv,
                body: block_view(bodyv),
            }));
        }
        Ok(st)
    }

    fn parse_block(&mut self) -> (r: Result<Block, ParseError>)
        requires
            old(self).wf(),
        ensures
            final(self).ts() == old(self).ts(),
            final(self).wf(),
            match r {
                Ok(block) => p_block(old(self).ts(), old(self).at()) == Some(
                    (block_view(block@), final(self).at()),
                ) && old(self).at() < final(self).at(),
                Err(_) => p_block(old(self).ts(), old(self).at()) is None,
            },
        decreases old(self).ts().len() - old(self).at(), 6int,
    {
        if self.pos >= self.tokens.len() {
            return Err(ParseError::Unexpected(Expectation::LeftBrace, None));
        }
        let is_open = match &self.tokens[self.pos].kind {
            Kind::LeftBrace => true,
            _ => false,
        };
        if !is_open {
            let found = Token::new(
                self.tokens[self.pos].kind.duplicate(),
                self.tokens[self.pos].line,
            );
            return Err(ParseError::Unexpected(Expectation::LeftBrace, Some(found)));
        }
        self.pos = self.pos + 1;

        let mut block: Vec<Stmt> = Vec::new();
        proof {
            assert(block_view(block@) =~= Seq::<StmtView>::empty());
        }
        loop
            invariant
                self.wf(),
                self.ts() == old(self).ts(),
                old(self).at() < self.at(),
                p_block(old(self).ts(), old(self).at()) == (match p_block_items(
                    self.ts(),
                    self.at(),
                ) {
                    Some((rest, p)) => Some((block_view(block@) + rest, p)),
                    None => None::<(Seq<StmtView>, int)>,
                }),
            decreases self.ts().len() - self.at(),
        {
            if self.pos >= self.tokens.len() {
                return Err(ParseError::UnclosedBlock);
            }
            let is_close = match &self.tokens[self.pos].kind {
                Kind::RightBrace => true,
                _ => false,
            };
            if is_close {
                self.pos = self.pos + 1;
                proof {
                    assert(block_view(block@) + Seq::<StmtView>::empty() =~= block_view(
                        block@,
                    ));
                }
                return Ok(block);
            }
            let stmt = match self.parse_stmt() {
                Ok(s) => s,
                Err(e) => {
                    return Err(e);
                },
            };
            match self.expect_semi() {
                Ok(_) => {},
                Err(e) => {
                    return Err(e);
                },
            }
            let ghost block0 = block@;
            let ghost sv = stmt@;
            block.push(stmt);
            proof {
                assert(block_view(block@) =~= block_view(block0).push(sv));
                match p_block_items(self.ts(), self.at()) {
                    Some((rest, p)) => {
                        assert(block_view(block@) + rest =~= block_view(block0) + (seq![sv]
                            + rest));
                    },
                    None => {},
                }
            }
        }
    }

    fn parse_export_stmt(&mut self) -> (r: Result<Vec<Exportable>, ParseError>)
        requires
            old(self).wf(),
        ensures
            final(self).ts() == old(self).ts(),
            final(self).wf(),
            match r {
                Ok(es) => p_export(old(self).ts(), old(self).at(), Seq::empty()) == Some(
                    (es@.map_values(|e: Exportable| e@), final(self).at()),
                ) && old(self).at() <= final(self).at(),
                Err(_) => p_export(old(self).ts(), old(self).at(), Seq::empty()) is None,
            },
        decreases old(self).ts().len() - old(self).at(), 2int,
    {
        let mut exports: Vec<Exportable> = Vec::new();
        proof {
            assert(exports@.map_values(|e: Exportable| e@) =~= Seq::<ExportableView>::empty());
        }
        loop
            invariant
                self.wf(),
                self.ts() == old(self).ts(),
                old(self).at() <= self.at(),
                p_export(old(self).ts(), old(self).at(), Seq::empty()) == p_export(
                    self.ts(),
                    self.at(),
                    exports@.map_values(|e: Exportable| e@),
                ),
            decreases self.ts().len() - self.at(),
        {
            let at_word = self.pos < self.tokens.len() && (match &self.tokens[self.pos].kind {
                Kind::Word(_) => true,
                _ => false,
            });
            if !at_word {
                if exports.len() == 0 {
                    return Err(ParseError::EmptyExport);
                }
                return Ok(exports);
            }
            let word = match &self.tokens[self.pos].kind {
                Kind::Word(w) => w.duplicate(),
                _ => vstd::pervasive::unreached(),
            };
            self.pos = self.pos + 1;
            let ghost e0 = exports@.map_values(|e: Exportable| e@);
            match word.parse_name_value_pair() {
                Some(pair) => {
                    let ghost pv = pair@;
                    exports.push(Exportable::new(pair.name, Some(pair.value)));
                    proof {
                        assert(exports@.map_values(|e: Exportable| e@) =~= e0.push(
                            ExportableView { name: pv.name, value: Some(pv.value) },
                        ));
                    }
                },
                None => {
                    if word.is_valid_name() {
                        let ghost wv = word@;
                        exports.push(Exportable::new(word, None));
                        proof {
                            assert(exports@.map_values(|e: Exportable| e@) =~= e0.push(
                                ExportableView { name: wv, value: None::<WordView> },
                            ));
                        }
                    } else {
                        return Err(ParseError::NotAValidName(word));
                    }
                },
            }
        }
    }

    fn parse_assignment_or_command(&mut self, word: Word) -> (r: Result<Stmt, ParseError>)
        requires
            old(self).wf(),
        ensures
            final(self).ts() == old(self).ts(),
            final(self).wf(),
            match r {
                Ok(s) => p_assignment_or_command(old(self).ts(), old(self).at(), word@) == Some(
                    (s@, final(self).at()),
                ) && old(self).at() <= final(self).at(),
                Err(_) => p_assignment_or_command(old(self).ts(), old(self).at(), word@)
                    is None,
            },
        decreases old(self).ts().len() - old(self).at(), 3int,
    {
        let first_pair = match word.parse_name_value_pair() {
            Some(pair) => pair,
            None => {
                return match self.parse_command(Some(word)) {
                    Ok(c) => {
                        let ghost cv = c@;
                        let s = Stmt::Command(c);
                        proof {
                            assert(s@ == StmtView::Command(cv));
                        }
                        Ok(s)
                    },
                    Err(e) => Err(e),
                };
            },
        };

        let mut env: Vec<NameValuePair> = Vec::new();
        let ghost p0 = first_pair@;
        env.push(first_pair);
        proof {
            assert(env@.map_values(|p: NameValuePair| p@) =~= seq![p0]);
        }
        loop
            invariant
                self.wf(),
                self.ts() == old(self).ts(),
                old(self).at() <= self.at(),
                p_assignment_or_command(old(self).ts(), old(self).at(), word@) == p_pairs(
                    old(self).ts(),
                    old(self).at(),
                    seq![p0],
                ),
                p_pairs(old(self).ts(), old(self).at(), seq![p0]) == p_pairs(
                    self.ts(),
                    self.at(),
                    env@.map_values(|p: NameValuePair| p@),
                ),
            decreases self.ts().len() - self.at(),
        {
            let at_word = self.pos < self.tokens.len() && (match &self.tokens[self.pos].kind {
                Kind::Word(_) => true,
                _ => false,
            });
            if !at_word {
                let ghost envv = env@.map_values(|p: NameValuePair| p@);
                proof {
                    assert(p_pairs(self.ts(), self.at(), envv) == Some(
                        (StmtView::Assignment(envv), self.at()),
                    ));
                }
                let s = Stmt::Assignment(env);
                proof {
                    assert(s@ == StmtView::Assignment(envv));
                }
                return Ok(s);
            }
            let ghost at0 = self.at();
            let w = match &self.tokens[self.pos].kind {
                Kind::Word(w) => w.duplicate(),
                _ => vstd::pervasive::unreached(),
            };
            proof {
                assert(self.ts()[at0].kind@ == KindView::Word(w@));
            }
            self.pos = self.pos + 1;
            let ghost e0 = env@.map_values(|p: NameValuePair| p@);
            match w.parse_name_value_pair() {
                Some(pair) => {
                    let ghost pv = pair@;
                    env.push(pair);
                    proof {
                        assert(env@.map_values(|p: NameValuePair| p@) =~= e0.push(pv));
                        assert(p_pairs(self.ts(), at0, e0) == p_pairs(
                            self.ts(),
                            at0 + 1,
                            e0.push(pv),
                        ));
                    }
                },
                None => {
                    proof {
                        assert(name_value_pair_spec(w@) is None);
                    }
                    let mut command = match self.parse_command(Some(w)) {
                        Ok(c) => c,
                        Err(e) => {
                            proof {
                                assert(p_pairs(self.ts(), at0, e0) is None);
                            }
                            return Err(e);
                        },
                    };
                    let ghost cv = command@;
                    let ghost envv = env@.map_values(|p: NameValuePair| p@);
                    proof {
                        assert(p_pairs(self.ts(), at0, e0) == Some(
                            (
                                StmtView::Command(CommandView { env: envv, ..cv }),
                                self.at(),
                            ),
                        ));
                    }
                    command.set_env(env);
                    proof {
                        assert(command@ == (CommandView { env: envv, ..cv }));
                    }
                    let s = Stmt::Command(command);
                    proof {
                        assert(s@ == StmtView::Command(CommandView { env: envv, ..cv }));
                    }
                    return Ok(s);
                },
            }
        }
    }

    fn parse_command(&mut self, head: Option<Word>) -> (r: Result<Command, ParseError>)
        requires
            old(self).wf(),
        ensures
            final(self).ts() == old(self).ts(),
            final(self).wf(),
            match r {
                Ok(c) => p_command(old(self).ts(), old(self).at(), match head {
                    Some(w) => Some(w@),
                    None => None,
                }) == Some((c@, final(self).at())) && old(self).at() <= final(self).at() && (
                head is None ==> old(self).at() < final(self).at()),
                Err(_) => p_command(old(self).ts(), old(self).at(), match head {
                    Some(w) => Some(w@),
                    None => None,
                }) is None,
            },
        decreases old(self).ts().len() - old(self).at(), 1int,
    {
        let name = match head {
            Some(w) => w,
            None => {
                if self.pos >= self.tokens.len() {
                    return Err(ParseError::Unexpected(Expectation::Command, None));
                }
                let w = match &self.tokens[self.pos].kind {
                    Kind::Word(w) => w.duplicate(),
                    kind => {
                        let found = Token::new(
                            kind.duplicate(),
                            self.tokens[self.pos].line,
                        );
                        return Err(
                            ParseError::Unexpected(Expectation::Command, Some(found)),
                        );
                    },
                };
                self.pos = self.pos + 1;
                w
            },
        };
        let ghost namev = name@;
        let mut command = Command::from_name(name);
        proof {
            assert(command@ == base_command(namev)) by {
                assert(command@.arguments =~= base_command(namev).arguments);
                assert(command@.redirects =~= base_command(namev).redirects);
                assert(command@.env =~= base_command(namev).env);
            }
        }

        loop
            invariant
                self.wf(),
                self.ts() == old(self).ts(),
                old(self).at() <= self.at(),
                command@.pipeline is None,
                p_command(old(self).ts(), old(self).at(), match head {
                    Some(w) => Some(w@),
                    None => None::<WordView>,
                }) == p_command_tail(self.ts(), self.at(), command@),
            decreases self.ts().len() - self.at(),
        {
            if self.pos >= self.tokens.len() {
                return Ok(command);
            }
            match &self.tokens[self.pos].kind {
                Kind::Word(w) => {
                    let argument = w.duplicate();
                    self.pos = self.pos + 1;
                    command.add_argument(argument);
                },
                Kind::Redirect(rd) => {
                    let redirect = match rd {
                        crate::redirect::Redirect::InFile(p) => crate::redirect::Redirect::InFile(
                            p.duplicate(),
                        ),
                        crate::redirect::Redirect::OutErr => crate::redirect::Redirect::OutErr,
                        crate::redirect::Redirect::OutFile(p, m) => crate::redirect::Redirect::OutFile(
                            p.duplicate(),
                            *m,
                        ),
                        crate::redirect::Redirect::ErrOut => crate::redirect::Redirect::ErrOut,
                        crate::redirect::Redirect::ErrFile(p, m) => crate::redirect::Redirect::ErrFile(
                            p.duplicate(),
                            *m,
                        ),
                    };
                    self.pos = self.pos + 1;
                    command.add_redirect(redirect);
                },
                Kind::Pipe => {
                    self.pos = self.pos + 1;
                    let tail = match self.parse_command(None) {
                        Ok(c) => c,
                        Err(e) => {
                            return Err(e);
                        },
                    };
                    let ghost cv = command@;
                    let ghost tv = tail@;
                    command.set_pipeline(tail);
                    proof {
                        assert(command@ == (CommandView {
                            pipeline: Some(Box::new(tv)),
                            ..cv
                        }));
                    }
                    return Ok(command);
                },
                _ => {
                    return Ok(command);
                },
            }
        }
    }
}

/// The guarantees the lexer gives of a token stream it produced.
pub open spec fn lexed_shape(src: Seq<u8>, ts: Seq<Token>) -> bool {
    &&& (ts.len() == 0 <==> all_blank(src, 0))
    &&& ts.len() > 0 ==> (crate::lexer::tag_of(ts[0].kind@) != KindTag::Semi
        && crate::lexer::tag_of(ts[ts.len() - 1].kind@) == KindTag::Semi)
}

/// Parses a token stream into a program: exactly the grammar's image.
pub fn parse_tokens(tokens: Vec<Token>) -> (r: Result<Program, ParseError>)
    ensures
        match r {
            Ok(program) => parse_tokens_spec(tokens@) == Some(block_view(program@)),
            Err(_) => parse_tokens_spec(tokens@) is None,
        },
{
    let mut parser = Parser::new(tokens);
    parser.parse()
}

/// Parses a whole input: tokenization per the lexer, then the grammar.
pub fn parse(input: &[u8]) -> (r: Result<Program, ParseError>)
    requires
        input@.len() < usize::MAX,
    ensures
        match r {
            Ok(program) => {
                &&& (program@.len() == 0 <==> all_blank(input@, 0))
                &&& exists|ts: Seq<Token>|
                    lexed_shape(input@, ts) && parse_tokens_spec(ts) == Some(
                        block_view(program@),
                    )
            },
            Err(ParseError::Lex(_)) => !all_blank(input@, 0),
            Err(_) => !all_blank(input@, 0) && exists|ts: Seq<Token>|
                lexed_shape(input@, ts) && parse_tokens_spec(ts) is None,
        },
{
    let tokens = match lex_all(input) {
        Ok(ts) => ts,
        Err(e) => {
            return Err(ParseError::Lex(e));
        },
    };
    let ghost tsv = tokens@;
    let r = parse_tokens(tokens);
    proof {
        assert(lexed_shape(input@, tsv));
        if tsv.len() == 0 {
            assert(p_program(tsv, 0) == Some((Seq::<StmtView>::empty(), 0int)));
        }
        match r {
            Ok(ref program) => {
                if block_view(program@).len() == 0 && tsv.len() > 0 {
                    // A nonempty stream opens with a non-Semi token, so the
                    // program's first statement exists.
                    lemma_nonempty_stream_parses_nonempty(tsv);
                }
            },
            Err(_) => {},
        }
    }
    r
}

/// A nonempty token stream never parses to the empty program: its first
/// token is not a Semi, so `p_program` must read one statement first.
proof fn lemma_nonempty_stream_parses_nonempty(ts: Seq<Token>)
    requires
        ts.len() > 0,
        crate::lexer::tag_of(ts[0].kind@) != KindTag::Semi,
    ensures
        match p_program(ts, 0) {
            Some((p, _)) => p.len() > 0,
            None => true,
        },
{
    match p_program(ts, 0) {
        Some((p, _)) => {
            assert(p.len() > 0);
        },
        None => {},
    }
}

} // verus!
