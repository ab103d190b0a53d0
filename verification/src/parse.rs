//! The grammar of a line, and the parser that follows it.
//!
//! A line is a list of statements separated by `;`. A statement is a list of
//! commands separated by `&&`. A command is a list of tokens separated by
//! whitespace: the first names it, the others are its arguments. So `&&`
//! binds tighter than `;`, and both chains lean to the right.

use crate::cmd::{
    views, Builtin, Cmd, CmdView, Compound, Expression, ExpressionView, Invoke, InvokeView,
    LineIter, Op, ParseError,
};
use crate::text::{
    is_blank, is_white_space, lemma_run_len_is, lemma_split_first, same_text, split, split_str, texts,
    tokens,
};
use vstd::prelude::*;
use vstd::std_specs::convert::TryFromSpecImpl;

verus! {

/// The name of the command that leaves the interpreter: `exit`.
pub open spec fn exit_name() -> Seq<char> {
    seq!['e', 'x', 'i', 't']
}

/// The separator of statements: `;`.
pub open spec fn semicolon() -> Seq<char> {
    seq![';']
}

/// The separator of the commands of a statement: `&&`.
pub open spec fn and_and() -> Seq<char> {
    seq!['&', '&']
}

/// Whether `text` holds a token, and so names a command.
pub open spec fn has_command(text: Seq<char>) -> bool {
    tokens(text).len() > 0
}

/// The command that a non-empty sequence of tokens makes: the first token
/// names it, the others are its arguments. `exit` leaves the interpreter with
/// code 0, whatever follows it.
pub open spec fn command_of(words: Seq<Seq<char>>) -> CmdView {
    if words.first() == exit_name() {
        CmdView::Builtin(Builtin::Exit(0))
    } else {
        CmdView::Invoke(InvokeView { binary: words.first(), args: words.drop_first() })
    }
}

/// The command that `text` spells, provided it holds a token.
pub open spec fn command(text: Seq<char>) -> CmdView {
    command_of(tokens(text))
}

/// A non-empty sequence of commands joined by `&&`, leaning to the right.
pub open spec fn and_chain(cmds: Seq<CmdView>) -> ExpressionView
    decreases cmds.len(),
{
    if cmds.len() <= 1 {
        ExpressionView::Cmd(cmds.first())
    } else {
        ExpressionView::Compound {
            op: Op::And,
            left: Box::new(ExpressionView::Cmd(cmds.first())),
            right: Box::new(and_chain(cmds.drop_first())),
        }
    }
}

/// A non-empty sequence of expressions joined by `;`, leaning to the right.
pub open spec fn semicolon_chain(exprs: Seq<ExpressionView>) -> ExpressionView
    decreases exprs.len(),
{
    if exprs.len() <= 1 {
        exprs.first()
    } else {
        ExpressionView::Compound {
            op: Op::Semicolon,
            left: Box::new(exprs.first()),
            right: Box::new(semicolon_chain(exprs.drop_first())),
        }
    }
}

/// The texts of the commands of a statement.
pub open spec fn command_texts(statement: Seq<char>) -> Seq<Seq<char>> {
    split(statement, and_and())
}

/// The texts of the statements of a line.
pub open spec fn statement_texts(line: Seq<char>) -> Seq<Seq<char>> {
    split(line, semicolon())
}

/// The tree of a statement whose command texts each hold a token.
pub open spec fn statement_tree(statement: Seq<char>) -> ExpressionView {
    and_chain(command_texts(statement).map_values(|text: Seq<char>| command(text)))
}

/// The tree of a line whose command texts each hold a token.
pub open spec fn line_tree(line: Seq<char>) -> ExpressionView {
    semicolon_chain(statement_texts(line).map_values(|text: Seq<char>| statement_tree(text)))
}

/// The texts of the commands of a line, statement by statement.
pub open spec fn nested_segments(line: Seq<char>) -> Seq<Seq<Seq<char>>> {
    statement_texts(line).map_values(|text: Seq<char>| command_texts(text))
}

/// The texts of all the commands of a line, from left to right: the line
/// split on `;`, and each piece split on `&&`.
pub open spec fn segments(line: Seq<char>) -> Seq<Seq<char>> {
    nested_segments(line).flatten()
}

/// What parsing `text` as a single command gives.
pub open spec fn parse_cmd(text: Seq<char>) -> Result<CmdView, ParseError> {
    if has_command(text) {
        Ok(command(text))
    } else {
        Err(ParseError::EmptyLine)
    }
}

/// What parsing `line` gives: its tree where every command text holds a
/// token, and `EmptyLine` where one of them holds none.
pub open spec fn parse(line: Seq<char>) -> Result<ExpressionView, ParseError> {
    if forall|i: int| 0 <= i < segments(line).len() ==> has_command(#[trigger] segments(line)[i]) {
        Ok(line_tree(line))
    } else {
        Err(ParseError::EmptyLine)
    }
}

/// The outcome of a parse, with the parsed value replaced by what it stands
/// for.
pub open spec fn outcome<T: View>(r: Result<T, ParseError>) -> Result<T::V, ParseError> {
    match r {
        Ok(t) => Ok(t@),
        Err(e) => Err(e),
    }
}

impl<'a> TryFrom<&'a str> for Cmd<'a> {
    type Error = ParseError;

    /// Parses a single command from its text: the first token names it, the
    /// others are its arguments. The text must hold a token; whether the
    /// name is that of a program is not looked at.
    fn try_from(line: &'a str) -> (r: Result<Self, ParseError>)
        ensures
            outcome(r) == parse_cmd(line@),
            r is Ok <==> has_command(line@),
            r matches Err(e) ==> e == ParseError::EmptyLine,
            is_blank(line@) ==> r is Err,
    {
        proof {
            if is_blank(line@) {
                lemma_blank_is_empty_line(line@);
            }
        }
        let mut words = LineIter::new(line);
        match words.next() {
            None => Err(ParseError::EmptyLine),
            Some(binary) => {
                proof {
                    reveal_strlit("exit");
                    assert("exit"@ =~= exit_name());
                }
                if same_text(binary, "exit") {
                    Ok(Cmd::Builtin(Builtin::Exit(0)))
                } else {
                    Ok(Cmd::Invoke(Invoke { binary, args: words }))
                }
            },
        }
    }
}

/// A parsed command holds slices of its line, and no specification function
/// can make such a value: the contract of `try_from` says what it stands for.
impl<'a> TryFromSpecImpl<&'a str> for Cmd<'a> {
    open spec fn obeys_try_from_spec() -> bool {
        false
    }

    open spec fn try_from_spec(line: &'a str) -> Result<Self, ParseError> {
        arbitrary()
    }
}

impl<'a> Expression<'a> {
    /// Joins commands by `&&`: the first is the left side of the root, the
    /// last the deepest right side.
    fn build_and_expression(cmds: Vec<Cmd<'a>>) -> (expr: Expression<'a>)
        requires
            cmds@.len() >= 1,
        ensures
            expr@ == and_chain(views(cmds@)),
    {
        let ghost all = views(cmds@);
        let mut cmds = cmds;
        let last = cmds.pop().unwrap();
        let mut expr = Expression::Cmd(last);
        assert(all.skip(cmds@.len() as int).first() == last@);
        while cmds.len() > 0
            invariant
                cmds@.len() < all.len(),
                views(cmds@) == all.take(cmds@.len() as int),
                expr@ == and_chain(all.skip(cmds@.len() as int)),
            decreases cmds@.len(),
        {
            let ghost n = cmds@.len() as int;
            let ghost before = cmds@;
            let cmd = cmds.pop().unwrap();
            proof {
                assert(cmd@ == views(before)[n - 1]);
                assert(all.skip(n - 1).first() == cmd@);
                assert(all.skip(n - 1).drop_first() =~= all.skip(n));
                assert(views(cmds@) =~= all.take(n - 1));
            }
            let left = Expression::Cmd(cmd);
            assert(left@ == ExpressionView::Cmd(cmd@));
            expr = Expression::Compound(Box::new(Compound { op: Op::And, left, right: expr }));
        }
        assert(all.skip(0) =~= all);
        expr
    }

    /// Joins expressions by `;`: the first is the left side of the root, the
    /// last the deepest right side.
    fn build_semicolon_expression(exprs: Vec<Expression<'a>>) -> (expr: Expression<'a>)
        requires
            exprs@.len() >= 1,
        ensures
            expr@ == semicolon_chain(views(exprs@)),
    {
        let ghost all = views(exprs@);
        let mut exprs = exprs;
        let mut expr = exprs.pop().unwrap();
        assert(all.skip(exprs@.len() as int).first() == expr@);
        while exprs.len() > 0
            invariant
                exprs@.len() < all.len(),
                views(exprs@) == all.take(exprs@.len() as int),
                expr@ == semicolon_chain(all.skip(exprs@.len() as int)),
            decreases exprs@.len(),
        {
            let ghost n = exprs@.len() as int;
            let ghost before = exprs@;
            let left = exprs.pop().unwrap();
            proof {
                assert(left@ == views(before)[n - 1]);
                assert(all.skip(n - 1).first() == left@);
                assert(all.skip(n - 1).drop_first() =~= all.skip(n));
                assert(views(exprs@) =~= all.take(n - 1));
            }
            expr = Expression::Compound(Box::new(Compound { op: Op::Semicolon, left, right: expr }));
        }
        assert(all.skip(0) =~= all);
        expr
    }

    /// Parses one statement: commands separated by `&&`.
    fn statement(text: &'a str) -> (r: Result<Expression<'a>, ParseError>)
        ensures
            r matches Ok(expr) ==> {
                &&& expr@ == statement_tree(text@)
                &&& forall|j: int|
                    0 <= j < command_texts(text@).len() ==> has_command(
                        #[trigger] command_texts(text@)[j],
                    )
            },
            r matches Err(e) ==> {
                &&& e == ParseError::EmptyLine
                &&& exists|j: int|
                    0 <= j < command_texts(text@).len() && !has_command(
                        #[trigger] command_texts(text@)[j],
                    )
            },
    {
        let parts = split_str(text, "&&");
        proof {
            reveal_strlit("&&");
            assert("&&"@ =~= and_and());
        }
        let mut cmds: Vec<Cmd<'a>> = Vec::new();
        let mut j: usize = 0;
        while j < parts.len()
            invariant
                j <= parts@.len(),
                texts(parts@) == command_texts(text@),
                cmds@.len() == j,
                forall|k: int|
                    0 <= k < j ==> has_command(#[trigger] command_texts(text@)[k]) && cmds@[k]@
                        == command(command_texts(text@)[k]),
            decreases parts@.len() - j,
        {
            assert(parts@[j as int]@ == command_texts(text@)[j as int]);
            match Cmd::try_from(parts[j]) {
                Ok(cmd) => {
                    cmds.push(cmd);
                },
                Err(e) => {
                    return Err(e);
                },
            }
            j = j + 1;
        }
        assert(views(cmds@) =~= command_texts(text@).map_values(|text: Seq<char>| command(text)));
        Ok(Self::build_and_expression(cmds))
    }
}

impl<'a> TryFrom<&'a str> for Expression<'a> {
    type Error = ParseError;

    /// Parses a line: statements separated by `;`, each of them commands
    /// separated by `&&`. Every command text must hold a token.
    fn try_from(line: &'a str) -> (r: Result<Self, ParseError>)
        ensures
            outcome(r) == parse(line@),
            r is Ok <==> forall|i: int|
                0 <= i < segments(line@).len() ==> has_command(#[trigger] segments(line@)[i]),
            r matches Ok(expr) ==> expr@.leaves() == segments(line@).map_values(
                |text: Seq<char>| command(text),
            ),
            r matches Err(e) ==> e == ParseError::EmptyLine,
            is_blank(line@) ==> r is Err,
    {
        proof {
            lemma_leaves_are_segments(line@);
            if is_blank(line@) {
                lemma_blank_is_empty_line(line@);
            }
        }
        let parts = split_str(line, ";");
        proof {
            reveal_strlit(";");
            assert(";"@ =~= semicolon());
        }
        let ghost nested = nested_segments(line@);
        let mut stmts: Vec<Expression<'a>> = Vec::new();
        let mut i: usize = 0;
        while i < parts.len()
            invariant
                i <= parts@.len(),
                texts(parts@) == statement_texts(line@),
                nested == nested_segments(line@),
                stmts@.len() == i,
                forall|k: int|
                    0 <= k < i ==> (#[trigger] stmts@[k])@ == statement_tree(
                        statement_texts(line@)[k],
                    ),
                forall|k: int, j: int|
                    0 <= k < i && 0 <= j < nested[k].len() ==> has_command(#[trigger] nested[k][j]),
            decreases parts@.len() - i,
        {
            assert(parts@[i as int]@ == statement_texts(line@)[i as int]);
            match Self::statement(parts[i]) {
                Ok(stmt) => {
                    stmts.push(stmt);
                },
                Err(e) => {
                    proof {
                        let holds = |text: Seq<char>| has_command(text);
                        let j = choose|j: int|
                            0 <= j < nested[i as int].len() && !has_command(
                                #[trigger] nested[i as int][j],
                            );
                        assert(!holds(nested[i as int][j]));
                        lemma_flatten_all(nested, holds);
                        assert(!has_command(segments(line@)[choose|k: int|
                            0 <= k < nested.flatten().len() && !holds(
                                #[trigger] nested.flatten()[k],
                            )]));
                    }
                    return Err(e);
                },
            }
            i = i + 1;
        }
        proof {
            let holds = |text: Seq<char>| has_command(text);
            assert forall|k: int, j: int| 0 <= k < nested.len() && 0 <= j < nested[k].len() implies holds(
                #[trigger] nested[k][j],
            ) by {
                assert(has_command(nested[k][j]));
            }
            lemma_flatten_all(nested, holds);
            assert(views(stmts@) =~= statement_texts(line@).map_values(
                |text: Seq<char>| statement_tree(text),
            ));
        }
        Ok(Self::build_semicolon_expression(stmts))
    }
}

/// A parsed expression holds slices of its line, and no specification
/// function can make such a value: the contract of `try_from` says what it
/// stands for.
impl<'a> TryFromSpecImpl<&'a str> for Expression<'a> {
    open spec fn obeys_try_from_spec() -> bool {
        false
    }

    open spec fn try_from_spec(line: &'a str) -> Result<Self, ParseError> {
        arbitrary()
    }
}

/// A property holds of every item of a flattened sequence exactly when it
/// holds of every item of every part.
pub proof fn lemma_flatten_all<A>(parts: Seq<Seq<A>>, holds: spec_fn(A) -> bool)
    ensures
        (forall|k: int| 0 <= k < parts.flatten().len() ==> holds(#[trigger] parts.flatten()[k]))
            <==> (forall|i: int, j: int|
            0 <= i < parts.len() && 0 <= j < parts[i].len() ==> holds(#[trigger] parts[i][j])),
    decreases parts.len(),
{
    if parts.len() > 0 {
        let head = parts.first();
        let tail = parts.drop_first();
        lemma_flatten_all(tail, holds);
        assert(parts.flatten() == head + tail.flatten());
        if forall|k: int| 0 <= k < parts.flatten().len() ==> holds(#[trigger] parts.flatten()[k]) {
            assert forall|k: int| 0 <= k < tail.flatten().len() implies holds(
                #[trigger] tail.flatten()[k],
            ) by {
                assert(parts.flatten()[head.len() + k] == tail.flatten()[k]);
            }
            assert forall|i: int, j: int| 0 <= i < parts.len() && 0 <= j < parts[i].len() implies holds(
                #[trigger] parts[i][j],
            ) by {
                if i == 0 {
                    assert(parts.flatten()[j] == head[j]);
                } else {
                    assert(tail[i - 1][j] == parts[i][j]);
                }
            }
        }
        if forall|i: int, j: int|
            0 <= i < parts.len() && 0 <= j < parts[i].len() ==> holds(#[trigger] parts[i][j]) {
            assert forall|i: int, j: int| 0 <= i < tail.len() && 0 <= j < tail[i].len() implies holds(
                #[trigger] tail[i][j],
            ) by {
                assert(tail[i][j] == parts[i + 1][j]);
            }
            assert forall|k: int| 0 <= k < parts.flatten().len() implies holds(
                #[trigger] parts.flatten()[k],
            ) by {
                if k < head.len() {
                    assert(parts.flatten()[k] == parts[0][k]);
                } else {
                    assert(parts.flatten()[k] == tail.flatten()[k - head.len()]);
                }
            }
        }
    }
}

/// Mapping the items of a flattened sequence is flattening the parts with
/// their items mapped.
pub proof fn lemma_flatten_map<A, B>(
    parts: Seq<Seq<A>>,
    mapped: Seq<Seq<B>>,
    f: spec_fn(A) -> B,
)
    requires
        mapped.len() == parts.len(),
        forall|i: int| 0 <= i < parts.len() ==> #[trigger] mapped[i] == parts[i].map_values(f),
    ensures
        mapped.flatten() == parts.flatten().map_values(f),
    decreases parts.len(),
{
    if parts.len() > 0 {
        let tail = parts.drop_first();
        let mapped_tail = mapped.drop_first();
        assert forall|i: int| 0 <= i < tail.len() implies #[trigger] mapped_tail[i]
            == tail[i].map_values(f) by {
            assert(mapped_tail[i] == mapped[i + 1]);
            assert(tail[i] == parts[i + 1]);
        }
        lemma_flatten_map(tail, mapped_tail, f);
        assert(mapped.first() == parts.first().map_values(f));
        assert(mapped.flatten() =~= parts.flatten().map_values(f));
    } else {
        assert(mapped.flatten() =~= parts.flatten().map_values(f));
    }
}

/// The leaves of a chain of commands are the commands.
pub proof fn lemma_and_chain_leaves(cmds: Seq<CmdView>)
    requires
        cmds.len() >= 1,
    ensures
        and_chain(cmds).leaves() == cmds,
    decreases cmds.len(),
{
    assert(ExpressionView::Cmd(cmds.first()).leaves() == seq![cmds.first()]);
    if cmds.len() > 1 {
        lemma_and_chain_leaves(cmds.drop_first());
    }
    assert(and_chain(cmds).leaves() =~= cmds);
}

/// The leaves of a chain of expressions are the leaves of the expressions,
/// one expression after the other.
pub proof fn lemma_semicolon_chain_leaves(exprs: Seq<ExpressionView>)
    requires
        exprs.len() >= 1,
    ensures
        semicolon_chain(exprs).leaves() == exprs.map_values(
            |expr: ExpressionView| expr.leaves(),
        ).flatten(),
    decreases exprs.len(),
{
    let leaves = exprs.map_values(|expr: ExpressionView| expr.leaves());
    if exprs.len() > 1 {
        lemma_semicolon_chain_leaves(exprs.drop_first());
        assert(leaves.drop_first() =~= exprs.drop_first().map_values(
            |expr: ExpressionView| expr.leaves(),
        ));
    } else {
        assert(leaves.drop_first().flatten() =~= Seq::<CmdView>::empty());
    }
    assert(semicolon_chain(exprs).leaves() =~= leaves.flatten());
}

/// The leaves of a line's tree, read from left to right, are the commands
/// that the line's command texts spell, in the order of the texts. Where each
/// of these texts holds a token, that tree is what the line parses to.
pub proof fn lemma_leaves_are_segments(line: Seq<char>)
    ensures
        line_tree(line).leaves() == segments(line).map_values(|text: Seq<char>| command(text)),
        (forall|i: int| 0 <= i < segments(line).len() ==> has_command(#[trigger] segments(line)[i]))
            ==> parse(line) == Ok::<ExpressionView, ParseError>(line_tree(line)),
{
    let statements = statement_texts(line);
    let trees = statements.map_values(|text: Seq<char>| statement_tree(text));
    let leaves = trees.map_values(|expr: ExpressionView| expr.leaves());
    let spell = |text: Seq<char>| command(text);
    lemma_split_first(line, semicolon());
    lemma_semicolon_chain_leaves(trees);
    assert forall|i: int| 0 <= i < statements.len() implies #[trigger] leaves[i]
        == nested_segments(line)[i].map_values(spell) by {
        lemma_split_first(statements[i], and_and());
        lemma_and_chain_leaves(command_texts(statements[i]).map_values(spell));
        assert(command_texts(statements[i]).map_values(spell) =~= command_texts(
            statements[i],
        ).map_values(|text: Seq<char>| command(text)));
    }
    lemma_flatten_map(nested_segments(line), leaves, spell);
    assert(segments(line).map_values(spell) =~= segments(line).map_values(
        |text: Seq<char>| command(text),
    ));
}

/// A text of whitespace alone holds no token.
pub proof fn lemma_blank_has_no_token(text: Seq<char>)
    requires
        is_blank(text),
    ensures
        tokens(text).len() == 0,
{
    lemma_run_len_is(text, true, text.len() as int);
}

/// A line of whitespace alone, the empty line among them, holds no command:
/// it parses neither as a command nor as a line, and the error is
/// `EmptyLine`.
pub proof fn lemma_blank_is_empty_line(line: Seq<char>)
    requires
        is_blank(line),
    ensures
        parse_cmd(line) == Err::<CmdView, ParseError>(ParseError::EmptyLine),
        parse(line) == Err::<ExpressionView, ParseError>(ParseError::EmptyLine),
{
    let holds = |text: Seq<char>| has_command(text);
    let nested = nested_segments(line);
    lemma_blank_has_no_token(line);
    lemma_split_first(line, semicolon());
    let statement = statement_texts(line)[0];
    lemma_split_first(statement, and_and());
    let text = command_texts(statement)[0];
    assert(is_blank(text)) by {
        assert forall|i: int| 0 <= i < text.len() implies is_white_space(#[trigger] text[i]) by {
            assert(text[i] == statement[i]);
            assert(statement[i] == line[i]);
        }
    }
    lemma_blank_has_no_token(text);
    assert(!holds(nested[0][0]));
    lemma_flatten_all(nested, holds);
    assert(!has_command(segments(line)[choose|k: int|
        0 <= k < nested.flatten().len() && !holds(#[trigger] nested.flatten()[k])]));
}

/// Parsing keeps no state: two parses of one line give trees of the same
/// structure, or the same error.
pub proof fn lemma_parse_is_repeatable<'a, 'b>(
    line: Seq<char>,
    first: Result<Expression<'a>, ParseError>,
    second: Result<Expression<'b>, ParseError>,
)
    requires
        outcome(first) == parse(line),
        outcome(second) == parse(line),
    ensures
        outcome(first) == outcome(second),
{
}

} // verus!
