//! What holds of every definition: how its registries, its names and its
//! runs relate.

use crate::error::ErrorView;
use crate::execution::{
    after, all_commands, lemma_all_succeed, lemma_failure_stops, lemma_plan_valid, ActionView,
    Outcome,
};
use crate::flatten::{lemma_collect, lemma_top_entries_at, sub_entries, top_entries, top_entry};
use crate::name_map::{
    distinct, has_key, index_of, lemma_index_of, lemma_no_repeats, lemma_same_names, lookup,
    names, Name,
};
use crate::paths::{
    leads_to_command, lemma_path_entry, lemma_path_of, lemma_top_entries_count, lemma_top_entry,
    name_at, nested_count, node_at, path_of, position_at, top_index,
};
use crate::resolve::{found_all, lemma_first_unresolved, resolve};
use crate::target::TargetView;
use crate::yake::{
    lemma_command_names, lemma_command_names_distinct, lemma_known_target, YakeView,
};
use vstd::prelude::*;

verus! {

/// Resolution is a function of the registry: two results for the same
/// flattened registry are the same dependency registry, or the same failure.
pub proof fn lemma_resolve_twice(
    registry: Seq<(Name, TargetView)>,
    first: Result<Seq<(Name, Seq<TargetView>)>, ErrorView>,
    second: Result<Seq<(Name, Seq<TargetView>)>, ErrorView>,
)
    requires
        first == resolve(registry),
        second == resolve(registry),
    ensures
        first == second,
{
}

/// A dependency registry has the names of the flattened registry, in the
/// same order, and under each name the targets that the names declared by
/// its target stand for.
pub proof fn lemma_resolved(registry: Seq<(Name, TargetView)>)
    requires
        resolve(registry) is Ok,
    ensures
        names(resolve(registry)->Ok_0) == names(registry),
        forall|i: int|
            0 <= i < registry.len() ==> (#[trigger] resolve(registry)->Ok_0[i]).1 == found_all(
                registry,
                registry[i].1.depends(),
            ),
        forall|i: int, k: int|
            0 <= i < registry.len() && 0 <= k < registry[i].1.depends().len() ==> has_key(
                registry,
                #[trigger] registry[i].1.depends()[k],
            ),
{
    let resolved = resolve(registry)->Ok_0;
    assert(names(resolved) =~= names(registry));
    lemma_first_unresolved(registry, registry.len());
    assert forall|i: int, k: int|
        0 <= i < registry.len() && 0 <= k < registry[i].1.depends().len() implies has_key(
        registry,
        #[trigger] registry[i].1.depends()[k],
    ) by {
        crate::resolve::lemma_first_missing(registry, registry[i].1.depends());
    }
}

/// Fabricating yields a consistent definition, and fabricating that again
/// changes nothing.
pub proof fn lemma_fabricate_idempotent(yake: YakeView)
    requires
        yake.consistent(),
    ensures
        match yake.fabricate() {
            Ok(fabricated) => fabricated.consistent() && fabricated.fabricated
                && fabricated.targets == yake.targets && fabricated.fabricate() == Ok::<
                YakeView,
                ErrorView,
            >(fabricated),
            Err(_) => !yake.fabricated,
        },
{
}

/// The flattened registry of a fabricated definition holds no name twice,
/// and neither does the list of its command names.
pub proof fn lemma_names_distinct(yake: YakeView)
    requires
        yake.consistent(),
    ensures
        distinct(yake.all_targets),
        yake.target_names().no_duplicates(),
{
    if yake.fabricated {
        lemma_collect(top_entries(yake.targets), Seq::empty());
    }
    lemma_command_names_distinct(yake.all_targets);
}

/// In a fabricated definition every canonical name stands for one target
/// only: the flattened registry is what the tree contributes, entry by
/// entry, and has one entry for each top-level target and one for each
/// command target below them.
pub proof fn lemma_fabricated_registry(yake: YakeView)
    requires
        yake.consistent(),
        yake.fabricated,
    ensures
        distinct(top_entries(yake.targets)),
        yake.all_targets == top_entries(yake.targets),
        yake.all_targets.len() == yake.targets.len() + nested_count(yake.targets),
{
    lemma_no_repeats(top_entries(yake.targets));
    lemma_top_entries_count(yake.targets);
}

/// In a fabricated definition, a command target at the end of a path below
/// a top-level target is held by the flattened registry under the dotted
/// name of the path, and under no other name: the entry that stands for it
/// has that name, and no other entry has.
pub proof fn lemma_nested_command(yake: YakeView, index: int, path: Seq<int>)
    requires
        yake.consistent(),
        yake.fabricated,
        0 <= index < yake.targets.len(),
        leads_to_command(yake.targets[index].1.children(), path),
    ensures
        ({
            let below = yake.targets[index].1.children();
            let prefix = Some(yake.targets[index].0);
            let name = name_at(below, prefix, path);
            let at = top_entries(yake.targets.take(index)).len() + 1 + position_at(
                below,
                prefix,
                path,
            );
            &&& 0 <= at < yake.all_targets.len()
            &&& yake.all_targets[at] == (name, node_at(below, path))
            &&& lookup(yake.all_targets, name) == Some(node_at(below, path))
            &&& forall|other: int|
                0 <= other < yake.all_targets.len() && other != at ==> (
                #[trigger] yake.all_targets[other]).0 != name
        }),
{
    let top = yake.targets;
    let below = top[index].1.children();
    let prefix = Some(top[index].0);
    let name = name_at(below, prefix, path);
    let inner = position_at(below, prefix, path);
    let from = top_entries(top.take(index)).len() as int;
    let at = from + 1 + inner;
    let part = top_entry(top[index]);
    let entries = top_entries(top);
    lemma_fabricated_registry(yake);
    lemma_path_entry(below, prefix, path);
    lemma_top_entries_at(top, index);
    assert(part[1 + inner] == sub_entries(below, prefix)[inner]);
    assert(entries.subrange(from, from + part.len())[1 + inner] == entries[at]);
    assert forall|other: int| 0 <= other < entries.len() && other != at implies (
    #[trigger] entries[other]).0 != name by {
        if other < at {
            assert(entries[other].0 != entries[at].0);
        } else {
            assert(entries[at].0 != entries[other].0);
        }
    }
    lemma_index_of(entries, name);
}

/// In a fabricated definition, behind every entry of the flattened
/// registry stands one target of the tree: a top-level target, under its
/// bare name, or a command target at the end of one path below a top-level
/// target, under the dotted name of that path.
pub proof fn lemma_entry_origin(yake: YakeView, position: int)
    requires
        yake.consistent(),
        yake.fabricated,
        0 <= position < yake.all_targets.len(),
    ensures
        ({
            let index = top_index(yake.targets, position);
            let from = top_entries(yake.targets.take(index)).len();
            let below = yake.targets[index].1.children();
            let prefix = Some(yake.targets[index].0);
            let path = path_of(below, prefix, position - from - 1);
            &&& 0 <= index < yake.targets.len()
            &&& from <= position
            &&& position == from ==> yake.all_targets[position] == yake.targets[index]
            &&& position > from ==> leads_to_command(below, path) && position_at(
                below,
                prefix,
                path,
            ) == position - from - 1 && yake.all_targets[position] == (
                name_at(below, prefix, path),
                node_at(below, path),
            )
        }),
{
    lemma_fabricated_registry(yake);
    lemma_top_entry(yake.targets, position);
    let index = top_index(yake.targets, position);
    let from = top_entries(yake.targets.take(index)).len();
    if position > from {
        let below = yake.targets[index].1.children();
        let prefix = Some(yake.targets[index].0);
        lemma_path_of(below, prefix, position - from - 1);
        lemma_path_entry(below, prefix, path_of(below, prefix, position - from - 1));
    }
}

/// In a consistent definition, a name is the name of a command target
/// exactly if the flattened registry holds a command target under it.
pub proof fn lemma_has_target(yake: YakeView, name: Name)
    requires
        yake.consistent(),
    ensures
        yake.has_target(name) <==> (lookup(yake.all_targets, name) is Some && lookup(
            yake.all_targets,
            name,
        ).unwrap().is_cmd()),
{
    let registry = yake.all_targets;
    lemma_names_distinct(yake);
    lemma_command_names(registry, name);
    lemma_index_of(registry, name);
    if yake.has_target(name) {
        let i = choose|i: int|
            0 <= i < registry.len() && (#[trigger] registry[i]).0 == name && registry[i].1.is_cmd();
        let found = index_of(registry, name).unwrap();
        if found < i {
            assert(registry[found].0 != registry[i].0);
        }
    }
    if lookup(registry, name) is Some && lookup(registry, name).unwrap().is_cmd() {
        let found = index_of(registry, name).unwrap();
        assert(registry[found].0 == name && registry[found].1.is_cmd());
    }
}

/// The commands of a run: for each declared dependency, in the declared
/// order, the commands of the target it stands for, and then the commands
/// of the target itself.
pub proof fn lemma_plan(yake: YakeView, name: Name)
    requires
        yake.consistent(),
        yake.has_target(name),
    ensures
        ({
            let target = lookup(yake.all_targets, name).unwrap();
            yake.plan(name).commands == all_commands(
                found_all(yake.all_targets, target.depends()),
            ) + target.command_lines()
        }),
{
    lemma_known_target(yake, name);
    lemma_resolved(yake.all_targets);
    lemma_same_names(yake.all_targets, yake.dependencies, name);
    lemma_index_of(yake.all_targets, name);
    lemma_index_of(yake.dependencies, name);
}

/// The commands of two targets are those of the first, then those of the second.
pub proof fn lemma_all_commands_of_two(first: TargetView, second: TargetView)
    ensures
        all_commands(seq![first, second]) == first.command_lines() + second.command_lines(),
{
    let both = seq![first, second];
    assert(both.drop_last() =~= seq![first]);
    assert(all_commands(seq![first].drop_last()) =~= Seq::<Seq<char>>::empty());
    assert(all_commands(seq![first]) =~= first.command_lines());
}

/// A target with two dependencies, where every command ends well: the
/// commands of the first dependency are invoked in full, then those of
/// the second, then the target's own, in that order, and nothing else;
/// then the run asks to finish.
pub proof fn lemma_run_of_two_dependencies(yake: YakeView, name: Name, outcomes: Seq<Outcome>)
    requires
        yake.consistent(),
        yake.has_target(name),
        lookup(yake.all_targets, name).unwrap().depends().len() == 2,
        yake.plan(name).commands.len() <= outcomes.len(),
        forall|j: int|
            0 <= j < yake.plan(name).commands.len() ==> outcomes[j] == Outcome::Succeeded,
    ensures
        ({
            let target = lookup(yake.all_targets, name).unwrap();
            let first = lookup(yake.all_targets, target.depends()[0]).unwrap();
            let second = lookup(yake.all_targets, target.depends()[1]).unwrap();
            let start = yake.plan(name);
            &&& start.invoked(outcomes) == first.command_lines() + second.command_lines()
                + target.command_lines()
            &&& after(start, outcomes).action() == ActionView::Finish(
                crate::execution::success_message(),
            )
        }),
{
    let target = lookup(yake.all_targets, name).unwrap();
    let first = lookup(yake.all_targets, target.depends()[0]).unwrap();
    let second = lookup(yake.all_targets, target.depends()[1]).unwrap();
    lemma_plan(yake, name);
    assert(found_all(yake.all_targets, target.depends()) =~= seq![first, second]);
    lemma_all_commands_of_two(first, second);
    lemma_plan_valid(lookup(yake.dependencies, name).unwrap(), target);
    lemma_all_succeed(yake.plan(name), outcomes);
}

/// A command of the first dependency fails: the commands of that
/// dependency up to and including it are invoked, and no command of a later
/// dependency nor of the target itself; then the run asks to abort.
pub proof fn lemma_failure_in_first_dependency(
    yake: YakeView,
    name: Name,
    outcomes: Seq<Outcome>,
    index: int,
)
    requires
        yake.consistent(),
        yake.has_target(name),
        lookup(yake.all_targets, name).unwrap().depends().len() > 0,
        0 <= index < lookup(
            yake.all_targets,
            lookup(yake.all_targets, name).unwrap().depends()[0],
        ).unwrap().command_lines().len(),
        index < outcomes.len(),
        outcomes[index] == Outcome::Failed,
        forall|j: int| 0 <= j < index ==> outcomes[j] == Outcome::Succeeded,
    ensures
        ({
            let target = lookup(yake.all_targets, name).unwrap();
            let first = lookup(yake.all_targets, target.depends()[0]).unwrap();
            let start = yake.plan(name);
            &&& start.invoked(outcomes) == first.command_lines().take(index + 1)
            &&& after(start, outcomes).action() == ActionView::Abort(
                ErrorView::CommandFailed { command: first.command_lines()[index] },
            )
        }),
{
    let target = lookup(yake.all_targets, name).unwrap();
    let wanted = target.depends();
    let found = found_all(yake.all_targets, wanted);
    let first = lookup(yake.all_targets, wanted[0]).unwrap();
    lemma_plan(yake, name);
    lemma_all_commands_begin(found);
    let plan = yake.plan(name);
    assert(first.command_lines().is_prefix_of(plan.commands));
    lemma_plan_valid(lookup(yake.dependencies, name).unwrap(), target);
    lemma_failure_stops(plan, outcomes, index);
}

/// The commands of several targets begin with the commands of the first.
pub proof fn lemma_all_commands_begin(targets: Seq<TargetView>)
    requires
        targets.len() > 0,
    ensures
        targets[0].command_lines().is_prefix_of(all_commands(targets)),
    decreases targets.len(),
{
    let front = targets.drop_last();
    if front.len() == 0 {
        assert(all_commands(front) =~= Seq::<Seq<char>>::empty());
    } else {
        lemma_all_commands_begin(front);
    }
}

} // verus!
