//! Evaluating an expression: which command runs next, and what the line
//! comes to, given the outcomes of the commands that already ran.
use vstd::prelude::*;

use crate::error::{Error, ErrorView};
use crate::parser::{Cmd, CmdView, ExprView, Expression, Op};

verus! {

/// Where the evaluation of an expression stands.
pub enum Outcome {
    /// Finished: whether the line succeeded.
    Value(bool),
    /// Stopped by an operating-system failure.
    Fault(ErrorView),
    /// This command is to run next.
    Waiting(CmdView),
}

/// What the caller is to do next.
#[derive(Debug)]
pub enum Step {
    /// Run this command and report how it went.
    Run(Cmd),
    /// The line is finished, with this outcome.
    Done(Result<bool, Error>),
}

impl View for Step {
    type V = Outcome;

    open spec fn view(&self) -> Outcome {
        match self {
            Step::Run(c) => Outcome::Waiting(c@),
            Step::Done(Ok(b)) => Outcome::Value(*b),
            Step::Done(Err(e)) => Outcome::Fault(e@),
        }
    }
}

/// A report on one command as a mathematical value.
pub open spec fn report_view(r: Result<bool, Error>) -> Result<bool, ErrorView> {
    match r {
        Ok(b) => Ok(b),
        Err(e) => Err(e@),
    }
}

/// The views of a list of reports.
pub open spec fn report_views(v: Seq<Result<bool, Error>>) -> Seq<Result<bool, ErrorView>> {
    v.map_values(|r: Result<bool, Error>| report_view(r))
}

/// What one command's report means for the line: the program's success; a
/// program that could not be started counts as a failure; any other error
/// stops the line.
pub open spec fn settle(r: Result<bool, ErrorView>) -> Outcome {
    match r {
        Ok(b) => Outcome::Value(b),
        Err(ErrorView::NoCmd) => Outcome::Value(false),
        Err(e) => Outcome::Fault(e),
    }
}

/// Evaluates `e` on the reports `rs` of the commands it runs, in order; also
/// gives how many reports were used.  `;` runs both sides and takes the
/// right one's outcome; `&&` runs the right side only after a left side that
/// succeeded; a failure stops everything after it.
pub open spec fn run(e: ExprView, rs: Seq<Result<bool, ErrorView>>) -> (Outcome, nat)
    decreases e,
{
    match e {
        ExprView::Leaf(c) => if rs.len() == 0 {
            (Outcome::Waiting(c), 0)
        } else {
            (settle(rs[0]), 1)
        },
        ExprView::Node(op, l, r) => {
            let (o, u) = run(*l, rs);
            match o {
                Outcome::Value(b) => if op == Op::Semicolon || b {
                    let (o2, u2) = run(*r, rs.skip(u as int));
                    (o2, u + u2)
                } else {
                    (Outcome::Value(false), u)
                },
                _ => (o, u),
            }
        },
    }
}

/// Evaluation never uses more reports than it is given.
proof fn lemma_run_uses(e: ExprView, rs: Seq<Result<bool, ErrorView>>)
    ensures
        run(e, rs).1 <= rs.len(),
    decreases e,
{
    match e {
        ExprView::Leaf(_) => {},
        ExprView::Node(_, l, r) => {
            lemma_run_uses(*l, rs);
            let u = run(*l, rs).1;
            lemma_run_uses(*r, rs.skip(u as int));
        },
    }
}

/// The step of `e` on the reports from position `from` on, and the position
/// after the reports it used.
fn step_from(e: &Expression, rs: &Vec<Result<bool, Error>>, from: usize) -> (r: (Step, usize))
    requires
        from <= rs@.len(),
    ensures
        r.0@ == run(e@, report_views(rs@).skip(from as int)).0,
        r.1 == from + run(e@, report_views(rs@).skip(from as int)).1,
    decreases e,
{
    let ghost all = report_views(rs@);
    match e {
        Expression::Cmd(c) => {
            if from == rs.len() {
                (Step::Run(c.duplicate()), from)
            } else {
                assert(all.skip(from as int)[0] == report_view(rs@[from as int]));
                let s = match &rs[from] {
                    Ok(b) => Step::Done(Ok(*b)),
                    Err(Error::NoCmd) => Step::Done(Ok(false)),
                    Err(err) => Step::Done(Err(err.duplicate())),
                };
                (s, from + 1)
            }
        },
        Expression::Compound(b) => {
            proof {
                lemma_run_uses(b.left@, all.skip(from as int));
            }
            let (s, u) = step_from(&b.left, rs, from);
            match s {
                Step::Done(Ok(v)) => {
                    if b.op == Op::Semicolon || v {
                        proof {
                            let k = (u - from) as int;
                            assert(all.skip(from as int).skip(k) =~= all.skip(u as int));
                        }
                        let (s2, u2) = step_from(&b.right, rs, u);
                        (s2, u2)
                    } else {
                        (Step::Done(Ok(false)), u)
                    }
                },
                _ => (s, u),
            }
        },
    }
}

impl Expression {
    /// What to do next, given the reports `rs` of the commands that ran so
    /// far, in order: the next command to run, or how the line came out.
    pub fn next_step(&self, rs: &Vec<Result<bool, Error>>) -> (r: Step)
        ensures
            r@ == run(self@, report_views(rs@)).0,
    {
        assert(report_views(rs@).skip(0) =~= report_views(rs@));
        let (s, _) = step_from(self, rs, 0);
        s
    }
}

} // verus!
