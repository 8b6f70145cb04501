//! Running a target: which command to invoke next, and when to stop.
//!
//! The library decides; its caller invokes each command and reports how it
//! ended.

use crate::error::{ErrorView, YakeError};
use crate::target::{TargetView, YakeTarget};
use vstd::prelude::*;

verus! {

/// How an invoked command ended.
#[derive(Debug, Clone, Copy, PartialEq, Eq, Structural)]
pub enum Outcome {
    /// The command ran and ended well.
    Succeeded,
    /// The command could not be started, or did not end well.
    Failed,
}

/// What the caller is to do next.
#[derive(Debug, PartialEq)]
pub enum Action {
    /// Invoke this command line, then report its outcome.
    Invoke(String),
    /// Every command has ended well: report success with this message.
    Finish(String),
    /// A command has failed: invoke nothing more and report this failure.
    Abort(YakeError),
}

/// The mathematical value of an `Action`.
pub enum ActionView {
    /// Invoke this command line.
    Invoke(Seq<char>),
    /// Report success with this message.
    Finish(Seq<char>),
    /// Report this failure.
    Abort(ErrorView),
}

impl View for Action {
    type V = ActionView;

    open spec fn view(&self) -> ActionView {
        match self {
            Action::Invoke(command) => ActionView::Invoke(command@),
            Action::Finish(message) => ActionView::Finish(message@),
            Action::Abort(error) => ActionView::Abort(error@),
        }
    }
}

/// Where a run stands.
#[derive(Debug, Clone, Copy, PartialEq, Eq)]
pub enum Phase {
    /// A command of a dependency is to be invoked: of the one at this
    /// position among the dependencies, in the declared order.
    RunningDependency(usize),
    /// A command of the target itself is to be invoked.
    RunningOwnCommands,
    /// Every command has ended well.
    Done,
    /// A command has failed.
    Failed,
}

/// The mathematical value of a `Phase`.
pub enum PhaseView {
    /// A command of the dependency at this position is to be invoked.
    RunningDependency(nat),
    /// A command of the target itself is to be invoked.
    RunningOwnCommands,
    /// Every command has ended well.
    Done,
    /// A command has failed.
    Failed,
}

impl View for Phase {
    type V = PhaseView;

    open spec fn view(&self) -> PhaseView {
        match self {
            Phase::RunningDependency(position) => PhaseView::RunningDependency(*position as nat),
            Phase::RunningOwnCommands => PhaseView::RunningOwnCommands,
            Phase::Done => PhaseView::Done,
            Phase::Failed => PhaseView::Failed,
        }
    }
}

/// The run of one target: the commands to invoke, where among them the
/// commands of each dependency end, how many commands have ended well, and
/// whether the one after those has failed.
#[derive(Debug, PartialEq)]
pub struct Execution {
    commands: Vec<String>,
    bounds: Vec<usize>,
    done: usize,
    failed: bool,
}

/// The mathematical value of an `Execution`.
pub struct ExecutionView {
    /// The commands of the run, in the order to invoke them.
    pub commands: Seq<Seq<char>>,
    /// For each dependency, in the declared order, how many of the commands
    /// belong to it or to a dependency before it.
    pub bounds: Seq<nat>,
    /// How many commands have ended well.
    pub done: nat,
    /// Whether the command after those has failed.
    pub failed: bool,
}

/// The message of a run that ended well.
pub open spec fn success_message() -> Seq<char> {
    "All cool"@
}

/// The commands of `targets`, those of the first target first.
pub open spec fn all_commands(targets: Seq<TargetView>) -> Seq<Seq<char>>
    decreases targets.len(),
{
    if targets.len() == 0 {
        Seq::empty()
    } else {
        all_commands(targets.drop_last()) + targets.last().command_lines()
    }
}

/// Whether `bounds` do not decrease and do not pass `limit`.
pub open spec fn ordered(bounds: Seq<nat>, limit: nat) -> bool {
    &&& forall|i: int, j: int| 0 <= i <= j < bounds.len() ==> bounds[i] <= bounds[j]
    &&& forall|i: int| 0 <= i < bounds.len() ==> bounds[i] <= limit
}

/// How many of `bounds`, from the first on, `done` has reached.
pub open spec fn passed(bounds: Seq<nat>, done: nat) -> nat
    decreases bounds.len(),
{
    if bounds.len() == 0 || done < bounds.first() {
        0
    } else {
        1 + passed(bounds.drop_first(), done)
    }
}

impl ExecutionView {
    /// The state before any command of `commands` has been invoked, where
    /// all of them are the target's own.
    pub open spec fn start(commands: Seq<Seq<char>>) -> ExecutionView {
        ExecutionView { commands, bounds: Seq::empty(), done: 0, failed: false }
    }

    /// The state before any command has been invoked, where the commands
    /// are those of each of `dependencies`, in order, and then those of
    /// `target`.
    pub open spec fn plan(dependencies: Seq<TargetView>, target: TargetView) -> ExecutionView {
        ExecutionView {
            commands: all_commands(dependencies) + target.command_lines(),
            bounds: Seq::new(
                dependencies.len(),
                |i: int| all_commands(dependencies.take(i + 1)).len(),
            ),
            done: 0,
            failed: false,
        }
    }

    /// Whether the state can arise: no more commands have ended than there
    /// are, a failed command is one of them, and the bounds of the
    /// dependencies do not decrease nor pass the end.
    pub open spec fn valid(self) -> bool {
        &&& self.done <= self.commands.len()
        &&& self.failed ==> self.done < self.commands.len()
        &&& ordered(self.bounds, self.commands.len())
    }

    /// Whether a command is to be invoked in this state.
    pub open spec fn running(self) -> bool {
        !self.failed && self.done < self.commands.len()
    }

    /// Where the run stands.
    pub open spec fn phase(self) -> PhaseView {
        if self.failed {
            PhaseView::Failed
        } else if self.done >= self.commands.len() {
            PhaseView::Done
        } else if passed(self.bounds, self.done) < self.bounds.len() {
            PhaseView::RunningDependency(passed(self.bounds, self.done))
        } else {
            PhaseView::RunningOwnCommands
        }
    }

    /// What the caller is to do in this state.
    pub open spec fn action(self) -> ActionView {
        if self.failed {
            ActionView::Abort(ErrorView::CommandFailed { command: self.commands[self.done as int] })
        } else if self.done < self.commands.len() {
            ActionView::Invoke(self.commands[self.done as int])
        } else {
            ActionView::Finish(success_message())
        }
    }

    /// The state after the invoked command ended with `outcome`. A state in
    /// which nothing is to be invoked stays as it is.
    pub open spec fn advance(self, outcome: Outcome) -> ExecutionView {
        if !self.running() {
            self
        } else {
            match outcome {
                Outcome::Succeeded => ExecutionView { done: self.done + 1, ..self },
                Outcome::Failed => ExecutionView { failed: true, ..self },
            }
        }
    }

    /// The commands that a caller invokes from this state on, where
    /// `outcomes` tells how they end, one after the other: it invokes what
    /// the state asks for and reports the outcome, until the state asks for
    /// no command or the outcomes are used up.
    pub open spec fn invoked(self, outcomes: Seq<Outcome>) -> Seq<Seq<char>>
        decreases outcomes.len(),
    {
        match self.action() {
            ActionView::Invoke(command) => if outcomes.len() == 0 {
                seq![command]
            } else {
                seq![command] + self.advance(outcomes.first()).invoked(outcomes.drop_first())
            },
            _ => Seq::empty(),
        }
    }
}

/// How many of `outcomes` come before the first failure; all of them where
/// none is a failure.
pub open spec fn successes(outcomes: Seq<Outcome>) -> nat
    decreases outcomes.len(),
{
    if outcomes.len() == 0 || outcomes.first() == Outcome::Failed {
        0
    } else {
        1 + successes(outcomes.drop_first())
    }
}

/// The state after the invoked commands ended as `outcomes` tells, one
/// after the other.
pub open spec fn after(state: ExecutionView, outcomes: Seq<Outcome>) -> ExecutionView
    decreases outcomes.len(),
{
    if outcomes.len() == 0 {
        state
    } else {
        after(state.advance(outcomes.first()), outcomes.drop_first())
    }
}

/// The position after the last command that is invoked from `state` on:
/// the one after the first command that fails, at most the end.
pub open spec fn stop(state: ExecutionView, outcomes: Seq<Outcome>) -> int {
    if state.done + successes(outcomes) + 1 <= state.commands.len() {
        (state.done + successes(outcomes) + 1) as int
    } else {
        state.commands.len() as int
    }
}

/// `successes` counts the outcomes before the first failure.
pub proof fn lemma_successes(outcomes: Seq<Outcome>, count: int)
    requires
        0 <= count <= outcomes.len(),
        forall|j: int| 0 <= j < count ==> outcomes[j] == Outcome::Succeeded,
    ensures
        successes(outcomes) >= count,
        count < outcomes.len() && outcomes[count] == Outcome::Failed ==> successes(outcomes)
            == count,
    decreases outcomes.len(),
{
    if count > 0 {
        let rest = outcomes.drop_first();
        assert(forall|j: int| 0 <= j < rest.len() ==> rest[j] == outcomes[j + 1]);
        lemma_successes(rest, count - 1);
    }
}

/// Advancing keeps a state valid.
pub proof fn lemma_advance_valid(state: ExecutionView, outcome: Outcome)
    requires
        state.valid(),
    ensures
        state.advance(outcome).valid(),
        state.advance(outcome).commands == state.commands,
{
}

/// A state in which a command has failed is final: whatever is reported, it
/// stays as it is and asks to abort.
pub proof fn lemma_failed_is_final(state: ExecutionView, outcomes: Seq<Outcome>)
    requires
        state.failed,
    ensures
        after(state, outcomes) == state,
        state.invoked(outcomes) == Seq::<Seq<char>>::empty(),
        state.action() is Abort,
    decreases outcomes.len(),
{
    if outcomes.len() > 0 {
        lemma_failed_is_final(state, outcomes.drop_first());
    }
}

/// From a state without failure, the commands invoked are the next ones in
/// order, up to and including the first that fails, and none after it.
pub proof fn lemma_invoked(state: ExecutionView, outcomes: Seq<Outcome>)
    requires
        state.valid(),
        !state.failed,
    ensures
        ({
            let end = stop(state, outcomes);
            &&& state.invoked(outcomes) == state.commands.subrange(state.done as int, end)
            &&& after(state, outcomes).commands == state.commands
            &&& successes(outcomes) < outcomes.len() && state.done + successes(outcomes)
                < state.commands.len() ==> after(state, outcomes).failed && after(
                state,
                outcomes,
            ).done == state.done + successes(outcomes)
            &&& state.done + successes(outcomes) >= state.commands.len() ==> !after(
                state,
                outcomes,
            ).failed && after(state, outcomes).done == state.commands.len()
        }),
    decreases outcomes.len(),
{
    let end = stop(state, outcomes);
    if !state.running() {
        if outcomes.len() > 0 {
            lemma_invoked(state, outcomes.drop_first());
        }
    } else if outcomes.len() == 0 {
        assert(state.invoked(outcomes) =~= state.commands.subrange(state.done as int, end));
    } else {
        let next = state.advance(outcomes.first());
        let rest = outcomes.drop_first();
        match outcomes.first() {
            Outcome::Succeeded => {
                lemma_invoked(next, rest);
            },
            Outcome::Failed => {
                lemma_failed_is_final(next, rest);
            },
        }
    }
}

/// Where every command ends well, all commands are invoked, in their
/// order, and nothing else; then the run asks to finish.
pub proof fn lemma_all_succeed(start: ExecutionView, outcomes: Seq<Outcome>)
    requires
        start.valid(),
        start.done == 0,
        !start.failed,
        start.commands.len() <= outcomes.len(),
        forall|j: int| 0 <= j < start.commands.len() ==> outcomes[j] == Outcome::Succeeded,
    ensures
        start.invoked(outcomes) == start.commands,
        after(start, outcomes).action() == ActionView::Finish(success_message()),
{
    lemma_successes(outcomes, start.commands.len() as int);
    lemma_invoked(start, outcomes);
}

/// Where the command at `index` is the first that fails, the commands up
/// to and including it are invoked, and none after it; then the run asks
/// to abort and names that command.
pub proof fn lemma_failure_stops(start: ExecutionView, outcomes: Seq<Outcome>, index: int)
    requires
        start.valid(),
        start.done == 0,
        !start.failed,
        0 <= index < start.commands.len(),
        index < outcomes.len(),
        outcomes[index] == Outcome::Failed,
        forall|j: int| 0 <= j < index ==> outcomes[j] == Outcome::Succeeded,
    ensures
        start.invoked(outcomes) == start.commands.take(index + 1),
        after(start, outcomes).action() == ActionView::Abort(
            ErrorView::CommandFailed { command: start.commands[index] },
        ),
{
    lemma_successes(outcomes, index);
    lemma_invoked(start, outcomes);
}

/// The state in which a run begins can arise.
pub proof fn lemma_plan_valid(dependencies: Seq<TargetView>, target: TargetView)
    ensures
        ExecutionView::plan(dependencies, target).valid(),
{
    let plan = ExecutionView::plan(dependencies, target);
    assert forall|i: int, j: int| 0 <= i <= j < plan.bounds.len() implies plan.bounds[i]
        <= plan.bounds[j] by {
        lemma_all_commands_grow(dependencies, i + 1, j + 1);
    }
    assert forall|i: int| 0 <= i < plan.bounds.len() implies plan.bounds[i]
        <= plan.commands.len() by {
        lemma_all_commands_grow(dependencies, i + 1, dependencies.len() as int);
        assert(dependencies.take(dependencies.len() as int) =~= dependencies);
    }
}

/// What `passed` counts: the bounds before the first that `done` has not reached.
pub proof fn lemma_passed(bounds: Seq<nat>, done: nat, count: int)
    requires
        0 <= count <= bounds.len(),
        forall|k: int| 0 <= k < count ==> bounds[k] <= done,
        count < bounds.len() ==> done < bounds[count],
    ensures
        passed(bounds, done) == count,
    decreases bounds.len(),
{
    if count > 0 {
        let rest = bounds.drop_first();
        assert(bounds.first() == bounds[0]);
        lemma_passed(rest, done, count - 1);
    } else if bounds.len() > 0 {
        assert(bounds.first() == bounds[0]);
    }
}

/// The commands of the first targets are the beginning of the commands of more of them.
pub proof fn lemma_all_commands_grow(targets: Seq<TargetView>, fewer: int, more: int)
    requires
        0 <= fewer <= more <= targets.len(),
    ensures
        all_commands(targets.take(fewer)).is_prefix_of(all_commands(targets.take(more))),
        all_commands(targets.take(fewer)).len() <= all_commands(targets.take(more)).len(),
    decreases more - fewer,
{
    if fewer < more {
        lemma_all_commands_grow(targets, fewer, more - 1);
        let longer = targets.take(more);
        assert(longer.drop_last() =~= targets.take(more - 1));
    }
}

/// The phase of a run tells whose command is to be invoked: where a
/// dependency is running, the command is one of its own, and all commands
/// of the dependencies before it have ended; where the target's own
/// commands are running, those of all dependencies have ended.
pub proof fn lemma_phase(dependencies: Seq<TargetView>, target: TargetView, done: nat)
    requires
        done < ExecutionView::plan(dependencies, target).commands.len(),
    ensures
        ({
            let plan = ExecutionView::plan(dependencies, target);
            let state = ExecutionView { done, ..plan };
            match state.phase() {
                PhaseView::RunningDependency(position) => {
                    let before = all_commands(dependencies.take(position as int)).len();
                    &&& position < dependencies.len()
                    &&& before <= done < before + dependencies[position as int].command_lines().len()
                    &&& plan.commands[done as int] == dependencies[position as int].command_lines()[done
                        - before]
                },
                PhaseView::RunningOwnCommands => {
                    let before = all_commands(dependencies).len();
                    &&& before <= done
                    &&& plan.commands[done as int] == target.command_lines()[done - before]
                },
                _ => false,
            }
        }),
{
    let plan = ExecutionView::plan(dependencies, target);
    let bounds = plan.bounds;
    let count = first_unreached(bounds, done, 0);
    let whole = all_commands(dependencies);
    lemma_first_unreached(bounds, done, 0);
    lemma_passed(bounds, done, count);
    assert(dependencies.take(dependencies.len() as int) =~= dependencies);
    let before = all_commands(dependencies.take(count));
    if count > 0 {
        assert(bounds[count - 1] == before.len());
    } else {
        assert(before =~= Seq::<Seq<char>>::empty());
    }
    if count < bounds.len() {
        let longer = dependencies.take(count + 1);
        assert(longer.drop_last() =~= dependencies.take(count));
        lemma_all_commands_grow(dependencies, count + 1, dependencies.len() as int);
        assert(all_commands(longer)[done as int] == whole[done as int]);
    }
}

/// The position of the first of `bounds`, from `from` on, that `done` has
/// not reached; the length where it has reached all.
pub open spec fn first_unreached(bounds: Seq<nat>, done: nat, from: int) -> int
    decreases bounds.len() - from,
{
    if from < 0 || from >= bounds.len() {
        bounds.len() as int
    } else if done < bounds[from] {
        from
    } else {
        first_unreached(bounds, done, from + 1)
    }
}

/// What `first_unreached` finds, where the bounds do not decrease.
pub proof fn lemma_first_unreached(bounds: Seq<nat>, done: nat, from: int)
    requires
        0 <= from <= bounds.len(),
        forall|k: int| 0 <= k < from ==> bounds[k] <= done,
    ensures
        from <= first_unreached(bounds, done, from) <= bounds.len(),
        forall|k: int| 0 <= k < first_unreached(bounds, done, from) ==> bounds[k] <= done,
        first_unreached(bounds, done, from) < bounds.len() ==> done < bounds[first_unreached(
            bounds,
            done,
            from,
        )],
    decreases bounds.len() - from,
{
    if from < bounds.len() && done >= bounds[from] {
        lemma_first_unreached(bounds, done, from + 1);
    }
}

/// Appends the commands of `target` to `commands`.
pub fn append_commands(target: &YakeTarget, commands: &mut Vec<String>)
    ensures
        final(commands).deep_view() == old(commands).deep_view() + target@.command_lines(),
{
    match &target.commands {
        Some(lines) => {
            let ghost before = commands.deep_view();
            let ghost added = lines.deep_view();
            let mut k: usize = 0;
            assert(commands.deep_view() =~= before + added.take(0));
            while k < lines.len()
                invariant
                    k <= lines@.len(),
                    added == lines.deep_view(),
                    commands.deep_view() == before + added.take(k as int),
                decreases lines@.len() - k,
            {
                let ghost so_far = commands.deep_view();
                let line = lines[k].clone();
                commands.push(line);
                assert(commands.deep_view() =~= so_far.push(line@));
                k += 1;
            }
        },
        None => {
            assert(commands.deep_view() =~= old(commands).deep_view() + target@.command_lines());
        },
    }
}

impl View for Execution {
    type V = ExecutionView;

    closed spec fn view(&self) -> ExecutionView {
        ExecutionView {
            commands: self.commands.deep_view(),
            bounds: Seq::new(self.bounds@.len(), |i: int| self.bounds@[i] as nat),
            done: self.done as nat,
            failed: self.failed,
        }
    }
}

impl Execution {
    /// What holds of every run: its state can arise.
    #[verifier::type_invariant]
    pub open spec fn well_formed(&self) -> bool {
        self@.valid()
    }

    /// The run that is to invoke `commands`, first to last, as the
    /// target's own.
    pub fn new(commands: Vec<String>) -> (run: Self)
        ensures
            run@ == ExecutionView::start(commands.deep_view()),
    {
        let run = Execution { commands, bounds: Vec::new(), done: 0, failed: false };
        assert(run@.bounds =~= Seq::<nat>::empty());
        run
    }

    /// The run of `target` after `dependencies`: it is to invoke the
    /// commands of each dependency, in order, and then those of the target.
    pub fn plan(dependencies: &Vec<YakeTarget>, target: &YakeTarget) -> (run: Self)
        ensures
            run@ == ExecutionView::plan(dependencies.deep_view(), target@),
    {
        let ghost first = dependencies.deep_view();
        let mut commands: Vec<String> = Vec::new();
        let mut bounds: Vec<usize> = Vec::new();
        assert(commands.deep_view() =~= all_commands(first.take(0)));
        let mut i: usize = 0;
        while i < dependencies.len()
            invariant
                i <= dependencies@.len(),
                first == dependencies.deep_view(),
                commands.deep_view() == all_commands(first.take(i as int)),
                bounds@.len() == i,
                forall|k: int|
                    0 <= k < i ==> bounds@[k] == all_commands(first.take(k + 1)).len(),
            decreases dependencies@.len() - i,
        {
            proof {
                let longer = first.take(i + 1);
                assert(longer.drop_last() =~= first.take(i as int));
            }
            append_commands(&dependencies[i], &mut commands);
            bounds.push(commands.len());
            i += 1;
        }
        assert(first.take(i as int) =~= first);
        append_commands(target, &mut commands);
        proof {
            lemma_plan_valid(first, target@);
            let plan = ExecutionView::plan(first, target@);
            let stored = Seq::new(bounds@.len(), |k: int| bounds@[k] as nat);
            assert(stored =~= plan.bounds);
        }
        Execution { commands, bounds, done: 0, failed: false }
    }

    /// Where the run stands.
    pub fn phase(&self) -> (phase: Phase)
        ensures
            phase@ == self@.phase(),
    {
        proof {
            use_type_invariant(self);
        }
        if self.failed {
            Phase::Failed
        } else if self.done >= self.commands.len() {
            Phase::Done
        } else {
            let mut stage: usize = 0;
            while stage < self.bounds.len() && self.bounds[stage] <= self.done
                invariant
                    stage <= self.bounds@.len(),
                    forall|k: int| 0 <= k < stage ==> self.bounds@[k] <= self.done,
                decreases self.bounds@.len() - stage,
            {
                stage += 1;
            }
            proof {
                lemma_passed(self@.bounds, self@.done, stage as int);
            }
            if stage < self.bounds.len() {
                Phase::RunningDependency(stage)
            } else {
                Phase::RunningOwnCommands
            }
        }
    }

    /// What the caller is to do now.
    pub fn action(&self) -> (action: Action)
        ensures
            action@ == self@.action(),
            self@.valid(),
    {
        proof {
            use_type_invariant(self);
        }
        if self.failed {
            Action::Abort(YakeError::CommandFailed { command: self.commands[self.done].clone() })
        } else if self.done < self.commands.len() {
            Action::Invoke(self.commands[self.done].clone())
        } else {
            Action::Finish(String::from_str("All cool"))
        }
    }

    /// Takes note of how the invoked command ended.
    pub fn advance(&mut self, outcome: Outcome)
        ensures
            final(self)@ == old(self)@.advance(outcome),
    {
        proof {
            use_type_invariant(&*self);
        }
        if !self.failed && self.done < self.commands.len() {
            match outcome {
                Outcome::Succeeded => {
                    self.done = self.done + 1;
                },
                Outcome::Failed => {
                    self.failed = true;
                },
            }
        }
    }

    /// The state after the invoked command ended with `outcome`, and what
    /// the caller is to do then.
    pub fn step(self, outcome: Outcome) -> (next: (Execution, Action))
        ensures
            next.0@ == self@.advance(outcome),
            next.1@ == self@.advance(outcome).action(),
    {
        let mut run = self;
        run.advance(outcome);
        let action = run.action();
        (run, action)
    }
}

} // verus!
