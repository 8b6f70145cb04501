//! A definition of targets together with the registries derived from it.

use crate::error::{ErrorView, YakeError};
use crate::flatten::{
    flatten, lemma_top_entries_step, repeated_names, sub_entries, top_entries, top_entry,
};
use crate::execution::{Execution, ExecutionView};
use crate::name_map::{
    distinct, has_key, lemma_deep_put, lemma_deep_search, lemma_index_of, lemma_put_all_concat,
    lemma_put_all_one, lemma_repeats_concat, lemma_repeats_one, lemma_same_names, lookup, names,
    put_all, repeats, Name, NameMap,
};
use crate::resolve::{resolve, resolve_all};
use crate::target::{clone_targets, TargetView};
pub use crate::target::{YakeTarget, YakeTargetMeta, YakeTargetType};
use vstd::prelude::*;

verus! {

/// What a definition says of itself.
#[derive(Debug, PartialEq)]
pub struct YakeMeta {
    /// Free text that describes the definition.
    pub doc: String,
    /// The version of the definition.
    pub version: String,
}

/// The mathematical value of a `YakeMeta`.
pub struct MetaView {
    /// Free text that describes the definition.
    pub doc: Seq<char>,
    /// The version of the definition.
    pub version: Seq<char>,
}

impl View for YakeMeta {
    type V = MetaView;

    open spec fn view(&self) -> MetaView {
        MetaView { doc: self.doc@, version: self.version@ }
    }
}

impl Clone for YakeMeta {
    fn clone(&self) -> (copy: Self)
        ensures
            copy@ == self@,
    {
        YakeMeta { doc: self.doc.clone(), version: self.version.clone() }
    }
}

/// A definition: its targets as a tree, and, once fabricated, the flattened
/// registry and the dependency registry derived from that tree.
#[derive(Debug, PartialEq)]
pub struct Yake {
    meta: YakeMeta,
    env: Option<Vec<String>>,
    targets: NameMap<YakeTarget>,
    fabricated: bool,
    all_targets: NameMap<YakeTarget>,
    dependencies: NameMap<Vec<YakeTarget>>,
}

/// The mathematical value of a `Yake`.
pub struct YakeView {
    /// What the definition says of itself.
    pub meta: MetaView,
    /// Names of environment variables to surface.
    pub env: Option<Seq<Seq<char>>>,
    /// The top-level targets, by name.
    pub targets: Seq<(Name, TargetView)>,
    /// Whether the registries have been derived.
    pub fabricated: bool,
    /// The flattened registry: targets by canonical name.
    pub all_targets: Seq<(Name, TargetView)>,
    /// The dependency registry: by canonical name, the targets to run first.
    pub dependencies: Seq<(Name, Seq<TargetView>)>,
}

/// The names of the command targets of `registry`, in its order.
pub open spec fn command_names(registry: Seq<(Name, TargetView)>) -> Seq<Name>
    decreases registry.len(),
{
    if registry.len() == 0 {
        Seq::empty()
    } else if registry.last().1.is_cmd() {
        command_names(registry.drop_last()).push(registry.last().0)
    } else {
        command_names(registry.drop_last())
    }
}

impl YakeView {
    /// Whether the registries are the ones derived from the tree, and every
    /// canonical name of the tree stands for one target only; before
    /// fabrication, whether the registries are empty.
    pub open spec fn consistent(self) -> bool {
        if self.fabricated {
            &&& repeated_names(self.targets).len() == 0
            &&& self.all_targets == flatten(self.targets)
            &&& resolve(self.all_targets) == Ok::<Seq<(Name, Seq<TargetView>)>, ErrorView>(
                self.dependencies,
            )
        } else {
            &&& self.all_targets.len() == 0
            &&& self.dependencies.len() == 0
        }
    }

    /// The names under which a command can be run.
    pub open spec fn target_names(self) -> Seq<Name> {
        command_names(self.all_targets)
    }

    /// Whether `name` is the name of a command target.
    pub open spec fn has_target(self, name: Name) -> bool {
        self.target_names().contains(name)
    }

    /// The definition with its registries derived. Where two targets have
    /// the same canonical name, the failure that names the first name met
    /// again; else, where a declared dependency is not in the flattened
    /// registry, the failure that names it and the target that declares it.
    pub open spec fn fabricate(self) -> Result<YakeView, ErrorView> {
        if self.fabricated {
            Ok(self)
        } else if repeated_names(self.targets).len() > 0 {
            Err(ErrorView::DuplicateName { name: repeated_names(self.targets)[0] })
        } else {
            match resolve(flatten(self.targets)) {
                Ok(dependencies) => Ok(
                    YakeView {
                        fabricated: true,
                        all_targets: flatten(self.targets),
                        dependencies,
                        ..self
                    },
                ),
                Err(error) => Err(error),
            }
        }
    }

    /// The run of the target stored under `name`, before any command has
    /// been invoked: the commands of each dependency in the declared order,
    /// then those of the target itself.
    pub open spec fn plan(self, name: Name) -> ExecutionView {
        ExecutionView::plan(
            lookup(self.dependencies, name).unwrap(),
            lookup(self.all_targets, name).unwrap(),
        )
    }
}

impl View for Yake {
    type V = YakeView;

    closed spec fn view(&self) -> YakeView {
        YakeView {
            meta: self.meta@,
            env: self.env.deep_view(),
            targets: self.targets.deep_view(),
            fabricated: self.fabricated,
            all_targets: self.all_targets.deep_view(),
            dependencies: self.dependencies.deep_view(),
        }
    }
}

/// A name is among the command names exactly if a command target is stored under it.
pub proof fn lemma_command_names(registry: Seq<(Name, TargetView)>, name: Name)
    ensures
        command_names(registry).contains(name) <==> exists|i: int|
            0 <= i < registry.len() && (#[trigger] registry[i]).0 == name && registry[i].1.is_cmd(),
    decreases registry.len(),
{
    if registry.len() > 0 {
        let front = registry.drop_last();
        let last = registry.len() - 1;
        lemma_command_names(front, name);
        assert(forall|i: int| 0 <= i < front.len() ==> front[i] == registry[i]);
        let rest = command_names(front);
        if command_names(registry).contains(name) && !rest.contains(name) {
            let k = choose|k: int|
                0 <= k < command_names(registry).len() && command_names(registry)[k] == name;
            if k < rest.len() {
                assert(rest[k] == name);
            }
        }
        if exists|i: int|
            0 <= i < registry.len() && (#[trigger] registry[i]).0 == name && registry[i].1.is_cmd() {
            let i = choose|i: int|
                0 <= i < registry.len() && (#[trigger] registry[i]).0 == name
                    && registry[i].1.is_cmd();
            if i < last {
                if registry.last().1.is_cmd() {
                    let k = choose|k: int| 0 <= k < rest.len() && rest[k] == name;
                    assert(command_names(registry)[k] == name);
                }
            } else {
                assert(command_names(registry)[rest.len() as int] == name);
            }
        }
    }
}

impl Yake {
    /// What holds of every definition: its registries agree with its tree.
    #[verifier::type_invariant]
    pub open spec fn well_formed(&self) -> bool {
        self@.consistent()
    }

    /// A definition with the given targets, not yet fabricated.
    pub fn new(meta: YakeMeta, env: Option<Vec<String>>, targets: NameMap<YakeTarget>) -> (yake:
        Self)
        ensures
            yake@ == (YakeView {
                meta: meta@,
                env: env.deep_view(),
                targets: targets.deep_view(),
                fabricated: false,
                all_targets: Seq::empty(),
                dependencies: Seq::empty(),
            }),
            yake@.consistent(),
    {
        let all_targets: NameMap<YakeTarget> = NameMap::new();
        let dependencies: NameMap<Vec<YakeTarget>> = NameMap::new();
        assert(all_targets.deep_view() =~= Seq::empty());
        assert(dependencies.deep_view() =~= Seq::empty());
        Yake { meta, env, targets, fabricated: false, all_targets, dependencies }
    }

    /// What the definition says of itself.
    pub fn meta(&self) -> (meta: &YakeMeta)
        ensures
            meta@ == self@.meta,
    {
        &self.meta
    }

    /// Names of environment variables to surface.
    pub fn env(&self) -> (env: &Option<Vec<String>>)
        ensures
            env.deep_view() == self@.env,
    {
        &self.env
    }

    /// The top-level targets.
    pub fn targets(&self) -> (targets: &NameMap<YakeTarget>)
        ensures
            targets.deep_view() == self@.targets,
    {
        &self.targets
    }

    /// Whether the registries have been derived. Either way they agree with the tree.
    pub fn is_fabricated(&self) -> (fabricated: bool)
        ensures
            fabricated == self@.fabricated,
            self@.consistent(),
    {
        proof {
            use_type_invariant(self);
        }
        self.fabricated
    }

    /// The flattened registry of the tree: every top-level target under its
    /// bare name, and below it every nested command target under its
    /// canonical name. A name that is met again takes the later target.
    pub fn get_all_targets(&self) -> (registry: NameMap<YakeTarget>)
        ensures
            registry.deep_view() == flatten(self@.targets),
    {
        self.flatten_checked().0
    }

    /// The flattened registry of the tree, and the canonical names that were
    /// met again while it was filled.
    pub fn flatten_checked(&self) -> (found: (NameMap<YakeTarget>, Vec<String>))
        ensures
            found.0.deep_view() == flatten(self@.targets),
            found.1.deep_view() == repeated_names(self@.targets),
    {
        let mut registry: NameMap<YakeTarget> = NameMap::new();
        let mut repeated: Vec<String> = Vec::new();
        let ghost top = self.targets.deep_view();
        assert(registry.deep_view() =~= Seq::<(Name, TargetView)>::empty());
        assert(repeated.deep_view() =~= repeats(Seq::empty(), top_entries(top.take(0))));
        let mut i: usize = 0;
        while i < self.targets.len()
            invariant
                i <= self.targets@.len(),
                top == self.targets.deep_view(),
                registry.deep_view() == put_all(Seq::empty(), top_entries(top.take(i as int))),
                repeated.deep_view() == repeats(Seq::empty(), top_entries(top.take(i as int))),
            decreases self.targets@.len() - i,
        {
            let name = self.targets.name_at(i);
            let target = self.targets.value_at(i);
            let copy = target.clone();
            let ghost before = registry.deep_view();
            proof {
                lemma_top_entries_step(top, i as int);
                lemma_put_all_concat(
                    Seq::empty(),
                    top_entries(top.take(i as int)),
                    top_entry(top[i as int]),
                );
                lemma_put_all_concat(
                    before,
                    seq![top[i as int]],
                    sub_entries(top[i as int].1.children(), Some(top[i as int].0)),
                );
                lemma_put_all_one(before, top[i as int]);
                lemma_deep_put(registry@, name@, copy);
                lemma_deep_search(registry@, name@);
                lemma_index_of(registry@, name@);
                lemma_repeats_concat(
                    Seq::empty(),
                    top_entries(top.take(i as int)),
                    top_entry(top[i as int]),
                );
                lemma_repeats_concat(
                    before,
                    seq![top[i as int]],
                    sub_entries(top[i as int].1.children(), Some(top[i as int].0)),
                );
                lemma_repeats_one(before, top[i as int]);
            }
            let ghost met = repeated.deep_view();
            let previous = registry.insert(name.clone(), copy);
            if previous.is_some() {
                repeated.push(name.clone());
                assert(repeated.deep_view() =~= met.push(name@));
            }
            assert(repeated.deep_view() =~= met + repeats(before, seq![top[i as int]]));
            let prefix = Some(name.clone());
            target.add_sub_targets(&prefix, &mut registry, &mut repeated);
            assert(repeated.deep_view() =~= repeats(
                Seq::empty(),
                top_entries(top.take(i + 1)),
            ));
            i += 1;
        }
        assert(top.take(i as int) =~= top);
        (registry, repeated)
    }

    /// The target that the tree holds under the canonical name `target_name`.
    pub fn get_target_by_name(&self, target_name: &str) -> (target: Option<YakeTarget>)
        ensures
            target.deep_view() == lookup(flatten(self@.targets), target_name@),
    {
        let registry = self.get_all_targets();
        proof {
            lemma_deep_search(registry@, target_name@);
        }
        match registry.get(target_name) {
            Some(found) => Some(found.clone()),
            None => None,
        }
    }

    /// The names of all command targets of the flattened registry. Before
    /// fabrication there are none.
    pub fn get_target_names(&self) -> (names: Vec<String>)
        ensures
            names.deep_view() == self@.target_names(),
            names.deep_view().no_duplicates(),
    {
        proof {
            use_type_invariant(&self.all_targets);
            lemma_deep_search(self.all_targets@, Seq::empty());
            lemma_command_names_distinct(self.all_targets.deep_view());
        }
        let mut names: Vec<String> = Vec::new();
        let ghost registry = self.all_targets.deep_view();
        assert(names.deep_view() =~= command_names(registry.take(0)));
        let mut i: usize = 0;
        while i < self.all_targets.len()
            invariant
                i <= self.all_targets@.len(),
                registry == self.all_targets.deep_view(),
                names.deep_view() == command_names(registry.take(i as int)),
            decreases self.all_targets@.len() - i,
        {
            proof {
                let longer = registry.take(i + 1);
                assert(longer.drop_last() =~= registry.take(i as int));
            }
            if self.all_targets.value_at(i).is_cmd() {
                let name = self.all_targets.name_at(i).clone();
                names.push(name);
            }
            i += 1;
        }
        assert(registry.take(i as int) =~= registry);
        names
    }

    /// Whether `target_name` is the name of a command target; where it is
    /// not, the names of all command targets.
    pub fn has_target_name(&self, target_name: &str) -> (found: Result<(), Vec<String>>)
        ensures
            found is Ok <==> self@.has_target(target_name@),
            match found {
                Ok(_) => true,
                Err(names) => names.deep_view() == self@.target_names(),
            },
    {
        let names = self.get_target_names();
        if contains_name(&names, target_name) {
            Ok(())
        } else {
            Err(names)
        }
    }

    /// The dependency registry of the tree; where a target declares a
    /// dependency that the flattened registry lacks, the failure that names
    /// both.
    pub fn get_all_dependencies(&self) -> (resolved: Result<NameMap<Vec<YakeTarget>>, YakeError>)
        ensures
            match resolved {
                Ok(dependencies) => resolve(flatten(self@.targets)) == Ok::<
                    Seq<(Name, Seq<TargetView>)>,
                    ErrorView,
                >(dependencies.deep_view()),
                Err(error) => resolve(flatten(self@.targets)) == Err::<
                    Seq<(Name, Seq<TargetView>)>,
                    ErrorView,
                >(error@),
            },
    {
        let registry = self.get_all_targets();
        resolve_all(&registry)
    }

    /// The targets that the target named `target_name` depends on, as the
    /// dependency registry holds them.
    pub fn get_dependencies_by_name(&self, target_name: &str) -> (targets: Vec<YakeTarget>)
        requires
            has_key(self@.dependencies, target_name@),
        ensures
            Some(targets.deep_view()) == lookup(self@.dependencies, target_name@),
    {
        proof {
            lemma_deep_search(self.dependencies@, target_name@);
            lemma_index_of(self.dependencies@, target_name@);
        }
        let found = self.dependencies.get(target_name);
        let targets = found.unwrap().clone();
        assert(targets.deep_view() =~= found.unwrap().deep_view());
        targets
    }

    /// The same definition with its registries derived. A definition that is
    /// fabricated already is returned as it is. Where two targets have the
    /// same canonical name, the failure that names it. Where a target
    /// declares a dependency that the flattened registry lacks, the failure
    /// that names both.
    pub fn fabricate(&self) -> (fabricated: Result<Yake, YakeError>)
        ensures
            match fabricated {
                Ok(yake) => self@.fabricate() == Ok::<YakeView, ErrorView>(yake@)
                    && yake@.consistent(),
                Err(error) => self@.fabricate() == Err::<YakeView, ErrorView>(error@),
            },
    {
        proof {
            use_type_invariant(self);
        }
        if self.fabricated {
            return Ok(self.clone());
        }
        let (all_targets, repeated) = self.flatten_checked();
        if repeated.len() > 0 {
            return Err(YakeError::DuplicateName { name: repeated[0].clone() });
        }
        match resolve_all(&all_targets) {
            Ok(dependencies) => Ok(
                Yake {
                    meta: self.meta.clone(),
                    env: self.env.clone(),
                    targets: clone_targets(&self.targets),
                    fabricated: true,
                    all_targets,
                    dependencies,
                },
            ),
            Err(error) => Err(error),
        }
    }

    /// Begins the run of the target named `target_name`: the commands of its
    /// dependencies, in the declared order, and then its own. Where no
    /// command target has that name, the failure that lists the names there
    /// are.
    pub fn execute(&self, target_name: &str) -> (started: Result<Execution, YakeError>)
        ensures
            match started {
                Ok(run) => self@.has_target(target_name@) && run@ == self@.plan(target_name@),
                Err(error) => !self@.has_target(target_name@) && error@
                    == (ErrorView::UnknownTarget {
                    name: target_name@,
                    available: self@.target_names(),
                }),
            },
    {
        match self.has_target_name(target_name) {
            Ok(_) => {},
            Err(available) => {
                return Err(
                    YakeError::UnknownTarget { name: String::from_str(target_name), available },
                );
            },
        }
        proof {
            use_type_invariant(self);
            lemma_known_target(self@, target_name@);
            lemma_deep_search(self.all_targets@, target_name@);
            lemma_index_of(self.all_targets@, target_name@);
        }
        let target = self.all_targets.get(target_name).unwrap();
        let dependencies = self.get_dependencies_by_name(target_name);
        Ok(Execution::plan(&dependencies, target))
    }
}

impl Clone for Yake {
    fn clone(&self) -> (copy: Self)
        ensures
            copy@ == self@,
    {
        proof {
            use_type_invariant(self);
        }
        Yake {
            meta: self.meta.clone(),
            env: self.env.clone(),
            targets: clone_targets(&self.targets),
            fabricated: self.fabricated,
            all_targets: clone_targets(&self.all_targets),
            dependencies: clone_dependencies(&self.dependencies),
        }
    }
}

/// The command names of a registry without repeated names are without
/// repetition, and each is a name of the registry.
pub proof fn lemma_command_names_distinct(registry: Seq<(Name, TargetView)>)
    requires
        distinct(registry),
    ensures
        command_names(registry).no_duplicates(),
    decreases registry.len(),
{
    if registry.len() > 0 {
        let front = registry.drop_last();
        assert(forall|i: int| 0 <= i < front.len() ==> front[i] == registry[i]);
        lemma_command_names_distinct(front);
        if registry.last().1.is_cmd() {
            let name = registry.last().0;
            lemma_command_names(front, name);
        }
    }
}

/// A known target has an entry in both registries.
pub proof fn lemma_known_target(yake: YakeView, name: Name)
    requires
        yake.consistent(),
        yake.has_target(name),
    ensures
        yake.fabricated,
        has_key(yake.all_targets, name),
        has_key(yake.dependencies, name),
        lookup(yake.all_targets, name) is Some,
        lookup(yake.dependencies, name) is Some,
{
    lemma_command_names(yake.all_targets, name);
    assert(names(yake.all_targets) =~= names(yake.dependencies));
    lemma_same_names(yake.all_targets, yake.dependencies, name);
    lemma_index_of(yake.all_targets, name);
    lemma_index_of(yake.dependencies, name);
}

/// Whether `name` is one of `names`.
pub fn contains_name(names: &Vec<String>, name: &str) -> (found: bool)
    ensures
        found == names.deep_view().contains(name@),
{
    let key = String::from_str(name);
    let mut i: usize = 0;
    while i < names.len()
        invariant
            i <= names@.len(),
            key@ == name@,
            forall|j: int| 0 <= j < i ==> names.deep_view()[j] != name@,
        decreases names@.len() - i,
    {
        if names[i] == key {
            assert(names.deep_view()[i as int] == name@);
            return true;
        }
        i += 1;
    }
    false
}

/// A copy of a dependency registry, with the same names in the same order
/// and the same targets under each.
pub fn clone_dependencies(map: &NameMap<Vec<YakeTarget>>) -> (copy: NameMap<Vec<YakeTarget>>)
    ensures
        copy.deep_view() == map.deep_view(),
{
    proof {
        use_type_invariant(map);
    }
    let mut copy: NameMap<Vec<YakeTarget>> = NameMap::new();
    assert(copy.deep_view() =~= map.deep_view().take(0));
    let mut i: usize = 0;
    while i < map.len()
        invariant
            i <= map@.len(),
            distinct(map@),
            copy.deep_view() == map.deep_view().take(i as int),
        decreases map@.len() - i,
    {
        let name = map.name_at(i).clone();
        let targets = map.value_at(i).clone();
        assert(targets.deep_view() =~= map@[i as int].1.deep_view());
        proof {
            lemma_deep_put(copy@, name@, targets);
            lemma_index_of(copy.deep_view(), name@);
            assert forall|j: int| 0 <= j < i implies (#[trigger] copy.deep_view()[j]).0
                != name@ by {
                assert(copy.deep_view()[j] == map.deep_view()[j]);
            }
        }
        copy.insert(name, targets);
        i += 1;
    }
    copy
}

/// The top-level target named `test`, as a list of one.
pub fn get_all_targets<'a>(yake: &'a Yake) -> (found: Vec<&'a YakeTarget>)
    requires
        has_key(yake@.targets, "test"@),
    ensures
        found@.len() == 1,
        Some(found@[0]@) == lookup(yake@.targets, "test"@),
{
    let mut found: Vec<&'a YakeTarget> = Vec::new();
    proof {
        lemma_deep_search(yake.targets@, "test"@);
        lemma_index_of(yake.targets@, "test"@);
    }
    found.push(yake.targets.get("test").unwrap());
    found
}

} // verus!
