//! The evaluator: what running an expression means, and a machine that runs
//! one step by step.
//!
//! Running an external program is not this library's business. The machine
//! says which program to run next; its user runs it and reports whether it
//! succeeded; the machine then says what comes next. [`run`] is the meaning of
//! an expression as a function of these reports, and every step of the
//! machine is held to it.

use crate::cmd::{
    views, Builtin, Cmd, CmdView, Compound, Expression, ExpressionView, Invoke, InvokeView, Op,
};
use vstd::prelude::*;

verus! {

/// How far a run has come.
pub enum Status {
    /// The command spawned last has not reported yet.
    Waiting,
    /// The expression has been evaluated, with this result.
    Finished(bool),
    /// The interpreter is to be left with this exit code.
    Exited(i32),
}

/// A run of an expression: the external commands spawned, in their order,
/// and how far the run has come.
#[verifier::ext_equal]
pub struct Run {
    pub spawned: Seq<InvokeView>,
    pub status: Status,
}

impl Run {
    /// This run, gone on with `next`.
    pub open spec fn followed_by(self, next: Run) -> Run {
        Run { spawned: self.spawned + next.spawned, status: next.status }
    }
}

/// Whether the right side of `op` is evaluated once the left side has
/// finished with the result `success`.
pub open spec fn goes_on(op: Op, success: bool) -> bool {
    op == Op::Semicolon || success
}

/// The run of a single command. `exit` leaves at once. An external command is
/// spawned, and finishes with the first of `outcomes`; where there is none
/// yet, the run waits for it.
pub open spec fn run_cmd(cmd: CmdView, outcomes: Seq<bool>) -> Run {
    match cmd {
        CmdView::Builtin(Builtin::Exit(code)) => Run {
            spawned: Seq::empty(),
            status: Status::Exited(code),
        },
        CmdView::Invoke(invoke) => Run {
            spawned: seq![invoke],
            status: if outcomes.len() == 0 {
                Status::Waiting
            } else {
                Status::Finished(outcomes[0])
            },
        },
    }
}

/// The run of `expr` where the external commands that it spawns report
/// `outcomes`, one after the other, `true` for success.
///
/// A compound runs its left side first. If that finishes, the right side
/// follows after `;` in any case and after `&&` on success only, and its
/// result is the result of the compound; a failed left side of `&&` is the
/// result itself. While the left side waits, or once it has left the
/// interpreter, nothing follows.
pub open spec fn run(expr: ExpressionView, outcomes: Seq<bool>) -> Run
    decreases expr,
{
    match expr {
        ExpressionView::Cmd(cmd) => run_cmd(cmd, outcomes),
        ExpressionView::Compound { op, left, right } => {
            let first = run(*left, outcomes);
            if first.status matches Status::Finished(success) && goes_on(op, success) {
                first.followed_by(run(*right, outcomes.skip(first.spawned.len() as int)))
            } else {
                first
            }
        },
    }
}

/// Every command of a run that is not waiting has reported, and a run that
/// waits is short of one outcome exactly.
pub proof fn lemma_run_uses_outcomes(expr: ExpressionView, outcomes: Seq<bool>)
    ensures
        run(expr, outcomes).status is Waiting ==> run(expr, outcomes).spawned.len()
            == outcomes.len() + 1,
        !(run(expr, outcomes).status is Waiting) ==> run(expr, outcomes).spawned.len()
            <= outcomes.len(),
    decreases expr,
{
    match expr {
        ExpressionView::Cmd(cmd) => {},
        ExpressionView::Compound { op, left, right } => {
            let first = run(*left, outcomes);
            lemma_run_uses_outcomes(*left, outcomes);
            if first.status matches Status::Finished(success) && goes_on(op, success) {
                lemma_run_uses_outcomes(*right, outcomes.skip(first.spawned.len() as int));
            }
        },
    }
}

/// Short circuit: where the left side of `&&` fails, the run of the compound
/// is the run of its left side. No command of the right side is spawned, and
/// the result is failure.
pub proof fn lemma_and_short_circuits(
    left: ExpressionView,
    right: ExpressionView,
    outcomes: Seq<bool>,
)
    requires
        run(left, outcomes).status == Status::Finished(false),
    ensures
        run(
            ExpressionView::Compound { op: Op::And, left: Box::new(left), right: Box::new(right) },
            outcomes,
        ) == run(left, outcomes),
{
}

/// Sequence: where the left side of `;` finishes, with whatever result, the
/// right side is run after it, on the outcomes that the left side has not
/// used, and decides how the compound ends.
pub proof fn lemma_semicolon_runs_both(
    left: ExpressionView,
    right: ExpressionView,
    outcomes: Seq<bool>,
)
    requires
        run(left, outcomes).status is Finished,
    ensures
        run(
            ExpressionView::Compound {
                op: Op::Semicolon,
                left: Box::new(left),
                right: Box::new(right),
            },
            outcomes,
        ) == run(left, outcomes).followed_by(
            run(right, outcomes.skip(run(left, outcomes).spawned.len() as int)),
        ),
{
}

/// Leaving is final: where the left side of a compound leaves the
/// interpreter, the run of the compound is the run of its left side, whatever
/// the operator.
pub proof fn lemma_exit_ends_run(
    op: Op,
    left: ExpressionView,
    right: ExpressionView,
    outcomes: Seq<bool>,
)
    requires
        run(left, outcomes).status is Exited,
    ensures
        run(ExpressionView::Compound { op, left: Box::new(left), right: Box::new(right) }, outcomes)
            == run(left, outcomes),
{
}

/// The right side of a compound whose left side is being evaluated.
struct Frame<'a> {
    op: Op,
    right: Expression<'a>,
}

/// What a [`Frame`] stands for.
struct FrameView {
    op: Op,
    right: ExpressionView,
}

impl<'a> View for Frame<'a> {
    type V = FrameView;

    closed spec fn view(&self) -> FrameView {
        FrameView { op: self.op, right: self.right@ }
    }
}

/// The run of what `frames` hold, innermost frame last, once the expression
/// above them has finished with the result `success`.
spec fn unwind(frames: Seq<FrameView>, success: bool, outcomes: Seq<bool>) -> Run
    decreases frames.len(), 0int,
{
    if frames.len() == 0 {
        Run { spawned: Seq::empty(), status: Status::Finished(success) }
    } else if goes_on(frames.last().op, success) {
        enter(frames.last().right, frames.drop_last(), outcomes)
    } else {
        unwind(frames.drop_last(), success, outcomes)
    }
}

/// The run of `expr`, gone on with what `frames` hold.
spec fn enter(expr: ExpressionView, frames: Seq<FrameView>, outcomes: Seq<bool>) -> Run
    decreases frames.len(), 1int,
{
    let first = run(expr, outcomes);
    match first.status {
        Status::Finished(success) => first.followed_by(
            unwind(frames, success, outcomes.skip(first.spawned.len() as int)),
        ),
        _ => first,
    }
}

/// The run that has spawned `before` and goes on with `rest`.
spec fn before_then(before: Seq<InvokeView>, rest: Run) -> Run {
    Run { spawned: before + rest.spawned, status: rest.status }
}

/// To enter a compound is to enter its left side with its right side put on
/// the frames.
proof fn lemma_enter_compound(
    op: Op,
    left: ExpressionView,
    right: ExpressionView,
    frames: Seq<FrameView>,
    outcomes: Seq<bool>,
)
    ensures
        enter(
            ExpressionView::Compound { op, left: Box::new(left), right: Box::new(right) },
            frames,
            outcomes,
        ) == enter(left, frames.push(FrameView { op, right }), outcomes),
{
    let whole = ExpressionView::Compound { op, left: Box::new(left), right: Box::new(right) };
    let pushed = frames.push(FrameView { op, right });
    let first = run(left, outcomes);
    assert(pushed.drop_last() =~= frames);
    lemma_run_uses_outcomes(left, outcomes);
    if let Status::Finished(success) = first.status {
        let n = first.spawned.len() as int;
        let rest = outcomes.skip(n);
        assert(enter(left, pushed, outcomes) == first.followed_by(unwind(pushed, success, rest)));
        if goes_on(op, success) {
            let second = run(right, rest);
            lemma_run_uses_outcomes(right, rest);
            assert(unwind(pushed, success, rest) == enter(right, frames, rest));
            assert(run(whole, outcomes) == first.followed_by(second));
            if let Status::Finished(result) = second.status {
                let m = second.spawned.len() as int;
                assert(rest.skip(m) =~= outcomes.skip(n + m));
                let last = unwind(frames, result, outcomes.skip(n + m));
                assert(enter(right, frames, rest) == second.followed_by(last));
                assert(enter(whole, frames, outcomes) == first.followed_by(second).followed_by(
                    last,
                ));
                assert(first.followed_by(second).followed_by(last) =~= first.followed_by(
                    second.followed_by(last),
                ));
            } else {
                assert(enter(right, frames, rest) == second);
                assert(enter(whole, frames, outcomes) == first.followed_by(second));
            }
        } else {
            assert(unwind(pushed, success, rest) == unwind(frames, success, rest));
            assert(run(whole, outcomes) == first);
        }
    }
}

/// What the evaluator asks of its user next.
pub enum Action<'a> {
    /// Run this external command, wait for it, and hand whether it succeeded
    /// to [`Suspended::resume`].
    Spawn(Invoke<'a>, Suspended<'a>),
    /// Leave the interpreter with this exit code. Nothing else is evaluated.
    Exit(i32),
    /// The expression has been evaluated, with this result.
    Done(bool),
}

/// An evaluation that waits for the command spawned last to report.
pub struct Suspended<'a> {
    /// The right sides still to be looked at, innermost last.
    pending: Vec<Frame<'a>>,
    /// The expression that is being evaluated.
    whole: Ghost<ExpressionView>,
    /// The outcomes reported so far.
    reported: Ghost<Seq<bool>>,
}

impl<'a> Suspended<'a> {
    /// The expression that is being evaluated.
    pub closed spec fn expression(self) -> ExpressionView {
        self.whole@
    }

    /// The outcomes reported so far, in their order.
    pub closed spec fn outcomes(self) -> Seq<bool> {
        self.reported@
    }

    /// Whatever the awaited command reports and the later ones after it, the
    /// whole run is the run up to here, gone on with what the frames hold.
    #[verifier::type_invariant]
    spec fn resumes_the_run(self) -> bool {
        forall|success: bool, later: Seq<bool>|
            run(self.whole@, self.reported@.push(success) + later) == before_then(
                run(self.whole@, self.reported@).spawned,
                #[trigger] unwind(views(self.pending@), success, later),
            )
    }

    /// Goes on with the evaluation once the awaited command has reported
    /// `success`.
    pub fn resume(self, success: bool) -> (action: Action<'a>)
        ensures
            action.follows(self.expression(), self.outcomes().push(success)),
    {
        proof {
            use_type_invariant(&self);
        }
        let ghost whole = self.whole@;
        let ghost reported = self.reported@.push(success);
        let ghost before = run(self.whole@, self.reported@).spawned;
        let mut pending = self.pending;
        while pending.len() > 0
            invariant
                whole == self.expression(),
                reported == self.outcomes().push(success),
                forall|later: Seq<bool>|
                    run(whole, reported + later) == before_then(
                        before,
                        #[trigger] unwind(views(pending@), success, later),
                    ),
            decreases pending@.len(),
        {
            let ghost frames = views(pending@);
            let frame = pending.pop().unwrap();
            assert(views(pending@) =~= frames.drop_last());
            assert(frames.last() == frame@);
            let go = match frame.op {
                Op::Semicolon => true,
                Op::And => success,
            };
            if go {
                proof {
                    assert forall|later: Seq<bool>|
                        run(whole, reported + later) == before_then(
                            before,
                            #[trigger] enter(frame.right@, views(pending@), later),
                        ) by {
                        assert(unwind(frames, success, later) == enter(
                            frame.right@,
                            views(pending@),
                            later,
                        ));
                    }
                }
                return descend(frame.right, pending, Ghost(whole), Ghost(reported), Ghost(before));
            }
            proof {
                assert forall|later: Seq<bool>|
                    run(whole, reported + later) == before_then(
                        before,
                        #[trigger] unwind(views(pending@), success, later),
                    ) by {
                    assert(unwind(frames, success, later) == unwind(
                        views(pending@),
                        success,
                        later,
                    ));
                }
            }
        }
        proof {
            let none = Seq::<bool>::empty();
            assert(reported + none =~= reported);
            assert(run(whole, reported + none).status == unwind(
                views(pending@),
                success,
                none,
            ).status);
        }
        Action::Done(success)
    }
}

impl<'a> Action<'a> {
    /// Whether this is the step that the run of `expr` asks for once
    /// `outcomes` have been reported: the command spawned last where the run
    /// waits, and else how the run has ended.
    pub open spec fn follows(self, expr: ExpressionView, outcomes: Seq<bool>) -> bool {
        match self {
            Action::Spawn(invoke, rest) => {
                &&& run(expr, outcomes).status == Status::Waiting
                &&& run(expr, outcomes).spawned.last() == invoke@
                &&& rest.expression() == expr
                &&& rest.outcomes() == outcomes
            },
            Action::Exit(code) => run(expr, outcomes).status == Status::Exited(code),
            Action::Done(success) => run(expr, outcomes).status == Status::Finished(success),
        }
    }
}

/// Evaluates `expr` and then what `pending` holds, up to the next step to ask
/// for. `before` are the commands spawned so far; they have reported
/// `reported`.
fn descend<'a>(
    expr: Expression<'a>,
    pending: Vec<Frame<'a>>,
    Ghost(whole): Ghost<ExpressionView>,
    Ghost(reported): Ghost<Seq<bool>>,
    Ghost(before): Ghost<Seq<InvokeView>>,
) -> (action: Action<'a>)
    requires
        forall|later: Seq<bool>|
            run(whole, reported + later) == before_then(
                before,
                #[trigger] enter(expr@, views(pending@), later),
            ),
    ensures
        action.follows(whole, reported),
{
    let ghost none = Seq::<bool>::empty();
    assert(reported + none =~= reported);
    let mut expr = expr;
    let mut pending = pending;
    loop
        invariant
            reported + none == reported,
            forall|later: Seq<bool>|
                run(whole, reported + later) == before_then(
                    before,
                    #[trigger] enter(expr@, views(pending@), later),
                ),
        decreases expr,
    {
        let ghost frames = views(pending@);
        match expr {
            Expression::Cmd(cmd) => {
                assert(expr@ == ExpressionView::Cmd(cmd@));
                assert(enter(expr@, frames, none) == run_cmd(cmd@, none));
                match cmd {
                    Cmd::Builtin(Builtin::Exit(code)) => {
                        return Action::Exit(code);
                    },
                    Cmd::Invoke(invoke) => {
                        proof {
                            assert(run(whole, reported).spawned =~= before.push(invoke@));
                            assert forall|success: bool, later: Seq<bool>|
                                run(whole, reported.push(success) + later) == before_then(
                                    run(whole, reported).spawned,
                                    #[trigger] unwind(frames, success, later),
                                ) by {
                                let more = seq![success] + later;
                                assert(reported.push(success) + later =~= reported + more);
                                assert(more.skip(1) =~= later);
                                assert(enter(expr@, frames, more) == run_cmd(
                                    cmd@,
                                    more,
                                ).followed_by(unwind(frames, success, later)));
                                assert(before_then(before, enter(expr@, frames, more))
                                    =~= before_then(
                                    before.push(invoke@),
                                    unwind(frames, success, later),
                                ));
                            }
                        }
                        let rest = Suspended {
                            pending,
                            whole: Ghost(whole),
                            reported: Ghost(reported),
                        };
                        return Action::Spawn(invoke, rest);
                    },
                }
            },
            Expression::Compound(compound) => {
                let Compound { op, left, right } = *compound;
                pending.push(Frame { op, right });
                proof {
                    assert(views(pending@) =~= frames.push(FrameView { op, right: right@ }));
                    assert forall|later: Seq<bool>|
                        run(whole, reported + later) == before_then(
                            before,
                            #[trigger] enter(left@, views(pending@), later),
                        ) by {
                        lemma_enter_compound(op, left@, right@, frames, later);
                        assert(enter(expr@, frames, later) == enter(left@, views(pending@), later));
                    }
                }
                expr = left;
            },
        }
    }
}

impl<'a> Expression<'a> {
    /// Begins to evaluate the expression: hands out the first step that it
    /// asks for.
    pub fn run(self) -> (action: Action<'a>)
        ensures
            action.follows(self@, Seq::empty()),
    {
        let ghost whole = self@;
        let ghost none = Seq::<bool>::empty();
        proof {
            assert forall|later: Seq<bool>|
                run(whole, none + later) == before_then(
                    Seq::empty(),
                    #[trigger] enter(whole, Seq::empty(), later),
                ) by {
                assert(none + later =~= later);
                let rest = later.skip(run(whole, later).spawned.len() as int);
                assert(forall|success: bool|
                    (#[trigger] unwind(Seq::empty(), success, rest)).spawned
                        =~= Seq::<InvokeView>::empty());
                assert(before_then(Seq::empty(), enter(whole, Seq::empty(), later)) =~= run(
                    whole,
                    later,
                ));
            }
        }
        let pending: Vec<Frame<'a>> = Vec::new();
        assert(views(pending@) =~= Seq::<FrameView>::empty());
        descend(self, pending, Ghost(whole), Ghost(none), Ghost(Seq::empty()))
    }
}

impl<'a> Cmd<'a> {
    /// Begins to carry out the command: a built-in asks to leave the
    /// interpreter, an external command asks to be spawned.
    pub fn run(self) -> (action: Action<'a>)
        ensures
            action.follows(ExpressionView::Cmd(self@), Seq::empty()),
            self@ matches CmdView::Builtin(Builtin::Exit(code)) ==> action matches Action::Exit(c)
                && c == code,
            self@ matches CmdView::Invoke(wanted) ==> action matches Action::Spawn(invoke, _)
                && invoke@ == wanted,
    {
        let expr = Expression::Cmd(self);
        assert(expr@ == ExpressionView::Cmd(self@));
        expr.run()
    }
}

} // verus!
