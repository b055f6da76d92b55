use vstd::prelude::*;

use crate::command::{Command, CommandView};
use crate::word::{Word, WordView};

verus! {

/// An ordered sequence of statements.
pub type Block = Vec<Stmt>;

/// A whole program: its top-level block.
pub type Program = Block;

/// One statement.
#[derive(Debug, PartialEq)]
pub enum Stmt {
    If(IfStmt),
    While(WhileStmt),
    Export(Vec<Exportable>),
    Assignment(Vec<NameValuePair>),
    Command(Command),
}

/// `if test { consequent } [else { alternate }]`; an `else if` chain is a
/// one-statement alternate holding the nested `if`.
#[derive(Debug, PartialEq)]
pub struct IfStmt {
    pub test: Command,
    pub consequent: Block,
    pub alternate: Option<Block>,
}

/// `while test { body }`.
#[derive(Debug, PartialEq)]
pub struct WhileStmt {
    pub test: Command,
    pub body: Block,
}

/// Mathematical image of a `Stmt`.
pub enum StmtView {
    If(IfStmtView),
    While(WhileStmtView),
    Export(Seq<ExportableView>),
    Assignment(Seq<NameValuePairView>),
    Command(CommandView),
}

/// Mathematical image of an `IfStmt`.
pub struct IfStmtView {
    pub test: CommandView,
    pub consequent: Seq<StmtView>,
    pub alternate: Option<Seq<StmtView>>,
}

/// Mathematical image of a `WhileStmt`.
pub struct WhileStmtView {
    pub test: CommandView,
    pub body: Seq<StmtView>,
}

pub open spec fn if_stmt_view(st: IfStmt) -> IfStmtView
    decreases st,
{
    IfStmtView {
        test: st.test@,
        consequent: block_view(st.consequent@),
        alternate: match st.alternate {
            Some(b) => Some(block_view(b@)),
            None => None,
        },
    }
}

pub open spec fn while_stmt_view(st: WhileStmt) -> WhileStmtView
    decreases st,
{
    WhileStmtView { test: st.test@, body: block_view(st.body@) }
}

pub open spec fn stmt_view(s: Stmt) -> StmtView
    decreases s,
{
    match s {
        Stmt::If(st) => StmtView::If(if_stmt_view(st)),
        Stmt::While(st) => StmtView::While(while_stmt_view(st)),
        Stmt::Export(es) => StmtView::Export(es@.map_values(|e: Exportable| e@)),
        Stmt::Assignment(ps) => StmtView::Assignment(ps@.map_values(|p: NameValuePair| p@)),
        Stmt::Command(c) => StmtView::Command(c@),
    }
}

pub open spec fn block_view(b: Seq<Stmt>) -> Seq<StmtView>
    decreases b,
{
    Seq::new(
        b.len(),
        |i: int|
            if 0 <= i < b.len() {
                stmt_view(b[i])
            } else {
                vstd::pervasive::arbitrary()
            },
    )
}

impl View for Stmt {
    type V = StmtView;

    open spec fn view(&self) -> StmtView {
        stmt_view(*self)
    }
}

impl Stmt {
    /// A deep copy with the same view.
    pub fn duplicate(&self) -> (r: Stmt)
        ensures
            r@ == self@,
        decreases *self,
    {
        match self {
            Stmt::If(st) => {
                let alternate = match &st.alternate {
                    Some(b) => Some(dup_block(b)),
                    None => None,
                };
                Stmt::If(
                    IfStmt {
                        test: st.test.duplicate(),
                        consequent: dup_block(&st.consequent),
                        alternate,
                    },
                )
            },
            Stmt::While(st) => Stmt::While(
                WhileStmt { test: st.test.duplicate(), body: dup_block(&st.body) },
            ),
            Stmt::Export(es) => {
                let mut r: Vec<Exportable> = Vec::new();
                let mut i: usize = 0;
                while i < es.len()
                    invariant
                        0 <= i <= es@.len(),
                        r@.len() == i,
                        forall|k: int| 0 <= k < i ==> (#[trigger] r@[k])@ == es@[k]@,
                    decreases es@.len() - i,
                {
                    r.push(es[i].duplicate());
                    i += 1;
                }
                let s = Stmt::Export(r);
                proof {
                    assert(r@.map_values(|e: Exportable| e@) =~= es@.map_values(
                        |e: Exportable| e@,
                    ));
                }
                s
            },
            Stmt::Assignment(ps) => {
                let mut r: Vec<NameValuePair> = Vec::new();
                let mut i: usize = 0;
                while i < ps.len()
                    invariant
                        0 <= i <= ps@.len(),
                        r@.len() == i,
                        forall|k: int| 0 <= k < i ==> (#[trigger] r@[k])@ == ps@[k]@,
                    decreases ps@.len() - i,
                {
                    r.push(ps[i].duplicate());
                    i += 1;
                }
                let s = Stmt::Assignment(r);
                proof {
                    assert(r@.map_values(|p: NameValuePair| p@) =~= ps@.map_values(
                        |p: NameValuePair| p@,
                    ));
                }
                s
            },
            Stmt::Command(c) => Stmt::Command(c.duplicate()),
        }
    }
}

/// A deep copy of a block, statement by statement.
pub fn dup_block(b: &Vec<Stmt>) -> (r: Vec<Stmt>)
    ensures
        block_view(r@) == block_view(b@),
    decreases *b,
{
    let mut r: Vec<Stmt> = Vec::new();
    let mut i: usize = 0;
    while i < b.len()
        invariant
            0 <= i <= b@.len(),
            r@.len() == i,
            forall|k: int| 0 <= k < i ==> stmt_view(#[trigger] r@[k]) == stmt_view(b@[k]),
        decreases b@.len() - i,
    {
        r.push(b[i].duplicate());
        i += 1;
    }
    proof {
        assert forall|k: int| 0 <= k < r@.len() implies block_view(r@)[k] == block_view(b@)[k] by {
            assert(block_view(r@)[k] == stmt_view(r@[k]));
            assert(block_view(b@)[k] == stmt_view(b@[k]));
        }
        assert(block_view(r@) =~= block_view(b@));
    }
    r
}

impl NameValuePair {
    /// A deep copy with the same view.
    pub fn duplicate(&self) -> (r: NameValuePair)
        ensures
            r@ == self@,
    {
        NameValuePair { name: self.name.duplicate(), value: self.value.duplicate() }
    }
}

impl Exportable {
    /// A deep copy with the same view.
    pub fn duplicate(&self) -> (r: Exportable)
        ensures
            r@ == self@,
    {
        Exportable {
            name: self.name.duplicate(),
            value: match &self.value {
                Some(w) => Some(w.duplicate()),
                None => None,
            },
        }
    }
}

impl IfStmt {
    pub fn new(test: Command, consequent: Block, alternate: Option<Block>) -> (r: Self)
        ensures
            r.test@ == test@,
            r.consequent@ == consequent@,
            r.alternate == alternate,
    {
        Self { test, consequent, alternate }
    }
}

impl WhileStmt {
    pub fn new(test: Command, body: Block) -> (r: Self)
        ensures
            r.test@ == test@,
            r.body@ == body@,
    {
        Self { test, body }
    }
}

/// `NAME=value`: an assignment's two halves.
#[derive(Clone, Debug, PartialEq)]
pub struct NameValuePair {
    pub name: Word,
    pub value: Word,
}

/// Mathematical image of a `NameValuePair`.
pub struct NameValuePairView {
    pub name: WordView,
    pub value: WordView,
}

impl View for NameValuePair {
    type V = NameValuePairView;

    open spec fn view(&self) -> NameValuePairView {
        NameValuePairView { name: self.name@, value: self.value@ }
    }
}

impl NameValuePair {
    pub fn new(name: Word, value: Word) -> (r: Self)
        ensures
            r@.name == name@,
            r@.value == value@,
    {
        Self { name, value }
    }
}

/// One item of an `export` statement: a name, with or without a value.
#[derive(Clone, Debug, PartialEq)]
pub struct Exportable {
    pub name: Word,
    pub value: Option<Word>,
}

/// Mathematical image of an `Exportable`.
pub struct ExportableView {
    pub name: WordView,
    pub value: Option<WordView>,
}

impl View for Exportable {
    type V = ExportableView;

    open spec fn view(&self) -> ExportableView {
        ExportableView {
            name: self.name@,
            value: match self.value {
                Some(ref w) => Some(w@),
                None => None,
            },
        }
    }
}

impl Exportable {
    pub fn new(name: Word, value: Option<Word>) -> (r: Self)
        ensures
            r@.name == name@,
            r@.value == (match value {
                Some(w) => Some(w@),
                None => None::<WordView>,
            }),
    {
        Self { name, value }
    }
}

} // verus!
