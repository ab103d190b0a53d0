//! The command tree: what a parsed line is made of, and the mathematical
//! value that each part stands for.

use crate::text::{next_token, tokens};
use vstd::prelude::*;

verus! {

/// How a compound expression joins its two sides.
#[derive(Debug, Clone, Copy, PartialEq, Eq, Structural)]
pub enum Op {
    /// `;`: the left side, then the right side whatever became of the left.
    Semicolon,
    /// `&&`: the left side, then the right side only if the left succeeded.
    And,
}

/// A command that the interpreter carries out itself.
#[derive(Debug, Clone, Copy, PartialEq, Eq, Structural)]
pub enum Builtin {
    /// Leave the interpreter with this exit code.
    Exit(i32),
}

/// Why a line could not be parsed.
#[derive(Debug, Clone, Copy, PartialEq, Eq, Structural)]
pub enum ParseError {
    /// A command held no token.
    EmptyLine,
    /// The name of a command could not be read as text.
    NoCmd,
}

/// The tokens of a command's text that have not been handed out yet.
#[derive(Debug)]
pub struct LineIter<'a> {
    rest: &'a str,
}

/// An external program and its arguments, as slices of the parsed line.
#[derive(Debug)]
pub struct Invoke<'a> {
    pub binary: &'a str,
    pub args: LineIter<'a>,
}

/// A single command.
#[derive(Debug)]
pub enum Cmd<'a> {
    /// An external program to run.
    Invoke(Invoke<'a>),
    /// A command of the interpreter itself.
    Builtin(Builtin),
}

/// Two expressions joined by an operator.
#[derive(Debug)]
pub struct Compound<'a> {
    pub op: Op,
    pub left: Expression<'a>,
    pub right: Expression<'a>,
}

/// A parsed line: one command, or two expressions joined by an operator.
#[derive(Debug)]
pub enum Expression<'a> {
    Cmd(Cmd<'a>),
    Compound(Box<Compound<'a>>),
}

/// What an [`Invoke`] stands for: the program's name and its arguments.
pub struct InvokeView {
    pub binary: Seq<char>,
    pub args: Seq<Seq<char>>,
}

/// What a [`Cmd`] stands for.
pub enum CmdView {
    Invoke(InvokeView),
    Builtin(Builtin),
}

/// What an [`Expression`] stands for: a binary tree with commands at its
/// leaves.
pub enum ExpressionView {
    Cmd(CmdView),
    Compound { op: Op, left: Box<ExpressionView>, right: Box<ExpressionView> },
}

/// What each item of a sequence stands for.
pub open spec fn views<T: View>(items: Seq<T>) -> Seq<T::V> {
    items.map_values(|item: T| item@)
}

impl ExpressionView {
    /// The commands at the leaves of the tree, from left to right.
    pub open spec fn leaves(self) -> Seq<CmdView>
        decreases self,
    {
        match self {
            ExpressionView::Cmd(cmd) => seq![cmd],
            ExpressionView::Compound { left, right, .. } => left.leaves() + right.leaves(),
        }
    }
}

impl<'a> View for LineIter<'a> {
    type V = Seq<Seq<char>>;

    /// The tokens still to come, in order.
    closed spec fn view(&self) -> Seq<Seq<char>> {
        tokens(self.rest@)
    }
}

impl<'a> View for Invoke<'a> {
    type V = InvokeView;

    open spec fn view(&self) -> InvokeView {
        InvokeView { binary: self.binary@, args: self.args@ }
    }
}

impl<'a> View for Cmd<'a> {
    type V = CmdView;

    open spec fn view(&self) -> CmdView {
        match self {
            Cmd::Invoke(invoke) => CmdView::Invoke(invoke@),
            Cmd::Builtin(builtin) => CmdView::Builtin(*builtin),
        }
    }
}

impl<'a> View for Expression<'a> {
    type V = ExpressionView;

    open spec fn view(&self) -> ExpressionView
        decreases self,
    {
        match self {
            Expression::Cmd(cmd) => ExpressionView::Cmd(cmd@),
            Expression::Compound(compound) => ExpressionView::Compound {
                op: compound.op,
                left: Box::new(compound.left.view()),
                right: Box::new(compound.right.view()),
            },
        }
    }
}

impl<'a> LineIter<'a> {
    /// The tokens of `text`, none handed out yet.
    pub fn new(text: &'a str) -> (iter: Self)
        ensures
            iter@ == tokens(text@),
    {
        LineIter { rest: text }
    }

    /// Hands out the next token, or `None` when there is none left.
    pub fn next(&mut self) -> (token: Option<&'a str>)
        ensures
            token is None <==> old(self)@.len() == 0,
            token is None ==> final(self)@ == old(self)@,
            token matches Some(t) ==> t@ == old(self)@.first() && final(self)@ == old(
                self,
            )@.drop_first(),
    {
        match next_token(self.rest) {
            None => None,
            Some((token, rest)) => {
                self.rest = rest;
                Some(token)
            },
        }
    }
}

} // verus!
