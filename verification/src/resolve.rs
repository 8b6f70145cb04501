//! Resolution: from the names a target declares as dependencies to the
//! targets they stand for.

use crate::error::{ErrorView, YakeError};
use crate::name_map::{
    distinct, has_key, lemma_deep_put, lemma_deep_search, lemma_index_of, lookup, Name, NameMap,
};
use crate::target::{TargetView, YakeTarget};
use vstd::prelude::*;

verus! {

/// The position of the first name in `wanted` that `registry` lacks.
pub open spec fn first_missing(registry: Seq<(Name, TargetView)>, wanted: Seq<Name>) -> Option<int>
    decreases wanted.len(),
{
    if wanted.len() == 0 {
        None
    } else {
        match first_missing(registry, wanted.drop_last()) {
            Some(k) => Some(k),
            None => if has_key(registry, wanted.last()) {
                None
            } else {
                Some(wanted.len() - 1)
            },
        }
    }
}

/// The targets that `wanted` names, in the order of the names.
pub open spec fn found_all(registry: Seq<(Name, TargetView)>, wanted: Seq<Name>) -> Seq<
    TargetView,
> {
    Seq::new(wanted.len(), |k: int| lookup(registry, wanted[k]).unwrap())
}

/// The position of the first among the first `count` entries of `registry`
/// that declares a dependency which `registry` lacks.
pub open spec fn first_unresolved(registry: Seq<(Name, TargetView)>, count: nat) -> Option<int>
    decreases count,
{
    if count == 0 {
        None
    } else {
        let last = count - 1;
        match first_unresolved(registry, last as nat) {
            Some(i) => Some(i),
            None => if first_missing(registry, registry[last].1.depends()) is Some {
                Some(last)
            } else {
                None
            },
        }
    }
}

/// The dependency registry of `registry`: under each name the targets that
/// its target depends on, in the declared order. Where a declared name is
/// not in `registry`, the first such name of the first such target.
pub open spec fn resolve(registry: Seq<(Name, TargetView)>) -> Result<
    Seq<(Name, Seq<TargetView>)>,
    ErrorView,
> {
    match first_unresolved(registry, registry.len()) {
        Some(i) => {
            let wanted = registry[i].1.depends();
            Err(
                ErrorView::UnknownDependency {
                    dependency: wanted[first_missing(registry, wanted).unwrap()],
                    target: registry[i].0,
                },
            )
        },
        None => Ok(
            Seq::new(
                registry.len(),
                |i: int| (registry[i].0, found_all(registry, registry[i].1.depends())),
            ),
        ),
    }
}

/// What `first_missing` finds.
pub proof fn lemma_first_missing(registry: Seq<(Name, TargetView)>, wanted: Seq<Name>)
    ensures
        match first_missing(registry, wanted) {
            Some(k) => 0 <= k < wanted.len() && !has_key(registry, wanted[k]) && forall|j: int|
                0 <= j < k ==> has_key(registry, #[trigger] wanted[j]),
            None => forall|j: int| 0 <= j < wanted.len() ==> has_key(registry, #[trigger] wanted[j]),
        },
    decreases wanted.len(),
{
    if wanted.len() > 0 {
        let front = wanted.drop_last();
        lemma_first_missing(registry, front);
        assert(forall|j: int| 0 <= j < front.len() ==> front[j] == wanted[j]);
    }
}

/// What `first_unresolved` finds.
pub proof fn lemma_first_unresolved(registry: Seq<(Name, TargetView)>, count: nat)
    requires
        count <= registry.len(),
    ensures
        match first_unresolved(registry, count) {
            Some(i) => 0 <= i < count && first_missing(registry, registry[i].1.depends()) is Some
                && forall|j: int|
                0 <= j < i ==> first_missing(registry, (#[trigger] registry[j]).1.depends())
                    is None,
            None => forall|j: int|
                0 <= j < count ==> first_missing(registry, (#[trigger] registry[j]).1.depends())
                    is None,
        },
    decreases count,
{
    if count > 0 {
        lemma_first_unresolved(registry, (count - 1) as nat);
    }
}

/// The targets that `target` depends on, looked up in `registry`; the first
/// declared name that is not there is the error.
pub fn resolve_target(registry: &NameMap<YakeTarget>, target: &YakeTarget) -> (found: Result<
    Vec<YakeTarget>,
    String,
>)
    ensures
        match found {
            Ok(targets) => first_missing(registry.deep_view(), target@.depends()) is None
                && targets.deep_view() == found_all(registry.deep_view(), target@.depends()),
            Err(name) => first_missing(registry.deep_view(), target@.depends()) is Some
                && name@ == target@.depends()[first_missing(
                registry.deep_view(),
                target@.depends(),
            ).unwrap()],
        },
{
    let ghost known = registry.deep_view();
    let ghost wanted = target@.depends();
    let mut targets: Vec<YakeTarget> = Vec::new();
    match &target.meta.depends {
        Some(list) => {
            let mut k: usize = 0;
            while k < list.len()
                invariant
                    k <= list@.len(),
                    known == registry.deep_view(),
                    wanted == list.deep_view(),
                    wanted == target@.depends(),
                    first_missing(known, wanted.take(k as int)) is None,
                    targets.deep_view() == found_all(known, wanted.take(k as int)),
                decreases list@.len() - k,
            {
                let name = &list[k];
                proof {
                    let longer = wanted.take(k + 1);
                    assert(longer.drop_last() =~= wanted.take(k as int));
                    assert(longer.last() == name@);
                    lemma_deep_search(registry@, name@);
                    lemma_index_of(registry@, name@);
                    lemma_index_of(known, name@);
                }
                match registry.get(name.as_str()) {
                    Some(dependency) => {
                        let copy = dependency.clone();
                        let ghost before = targets.deep_view();
                        targets.push(copy);
                        assert(targets.deep_view() =~= before.push(copy@));
                    },
                    None => {
                        proof {
                            lemma_first_missing(known, wanted);
                            lemma_first_missing(known, wanted.take(k as int));
                            assert forall|j: int| 0 <= j < k implies has_key(
                                known,
                                #[trigger] wanted[j],
                            ) by {
                                assert(wanted.take(k as int)[j] == wanted[j]);
                            }
                        }
                        return Err(name.clone());
                    },
                }
                k += 1;
            }
            assert(wanted.take(k as int) =~= wanted);
        },
        None => {
            assert(targets.deep_view() =~= found_all(known, wanted));
        },
    }
    Ok(targets)
}

/// The dependency registry of `registry`.
pub fn resolve_all(registry: &NameMap<YakeTarget>) -> (resolved: Result<
    NameMap<Vec<YakeTarget>>,
    YakeError,
>)
    ensures
        match resolved {
            Ok(dependencies) => resolve(registry.deep_view()) == Ok::<
                Seq<(Name, Seq<TargetView>)>,
                ErrorView,
            >(dependencies.deep_view()),
            Err(error) => resolve(registry.deep_view()) == Err::<
                Seq<(Name, Seq<TargetView>)>,
                ErrorView,
            >(error@),
        },
{
    proof {
        use_type_invariant(registry);
    }
    let ghost known = registry.deep_view();
    let mut dependencies: NameMap<Vec<YakeTarget>> = NameMap::new();
    let mut i: usize = 0;
    assert(dependencies.deep_view() =~= Seq::new(
        0,
        |j: int| (known[j].0, found_all(known, known[j].1.depends())),
    ));
    while i < registry.len()
        invariant
            i <= registry@.len(),
            distinct(registry@),
            known == registry.deep_view(),
            first_unresolved(known, i as nat) is None,
            dependencies.deep_view() == Seq::new(
                i as nat,
                |j: int| (known[j].0, found_all(known, known[j].1.depends())),
            ),
        decreases registry@.len() - i,
    {
        let name = registry.name_at(i);
        let target = registry.value_at(i);
        match resolve_target(registry, target) {
            Ok(targets) => {
                let ghost before = dependencies.deep_view();
                proof {
                    lemma_deep_put(dependencies@, name@, targets);
                    lemma_index_of(before, name@);
                    assert forall|j: int| 0 <= j < i implies (#[trigger] before[j]).0
                        != name@ by {
                        assert(registry@[j].0 != registry@[i as int].0);
                    }
                }
                dependencies.insert(name.clone(), targets);
                assert(dependencies.deep_view() =~= Seq::new(
                    (i + 1) as nat,
                    |j: int| (known[j].0, found_all(known, known[j].1.depends())),
                ));
            },
            Err(missing) => {
                proof {
                    lemma_first_unresolved(known, known.len());
                    lemma_first_unresolved(known, i as nat);
                    assert(known[i as int].1 == target@);
                }
                return Err(
                    YakeError::UnknownDependency { dependency: missing, target: name.clone() },
                );
            },
        }
        i += 1;
    }
    Ok(dependencies)
}

} // verus!
