//! Flattening: from a tree of targets to a registry addressed by canonical
//! names.

use crate::name_map::{
    distinct, has_key, last_with, lemma_deep_put, lemma_deep_search, lemma_index_of,
    lemma_last_with, lemma_names_contain, lemma_put_all, lemma_put_all_concat,
    lemma_put_all_len, lemma_put_all_one, lemma_repeats_concat, lemma_repeats_one, lookup, names,
    put_all, repeats, Name, NameMap,
};
use crate::target::{lemma_children, TargetView, YakeTarget, YakeTargetType};
use vstd::prelude::*;

verus! {

/// A canonical name made of the names on the way to a target, joined by dots.
pub open spec fn join(prefix: Name, name: Name) -> Name {
    prefix + seq!['.'] + name
}

/// The name of a target below `prefix`; the bare name where there is no prefix.
pub open spec fn qualified(prefix: Option<Name>, name: Name) -> Name {
    match prefix {
        Some(p) => join(p, name),
        None => name,
    }
}

/// The prefix for what lies below the group `name`: the qualified name of
/// the group, which is its bare name where there was no prefix.
pub open spec fn descend(prefix: Option<Name>, name: Name) -> Option<Name> {
    Some(qualified(prefix, name))
}

/// What one child contributes to a registry: a command target itself under
/// its qualified name, any other target what its own children contribute.
pub open spec fn child_entries(child: (Name, TargetView), prefix: Option<Name>) -> Seq<
    (Name, TargetView),
>
    decreases child,
{
    if child.1.is_cmd() {
        seq![(qualified(prefix, child.0), child.1)]
    } else {
        match child.1.targets {
            Some(children) => sub_entries(children, descend(prefix, child.0)),
            None => Seq::empty(),
        }
    }
}

/// What `children` contribute to a registry, first child first.
pub open spec fn sub_entries(children: Seq<(Name, TargetView)>, prefix: Option<Name>) -> Seq<
    (Name, TargetView),
>
    decreases children,
{
    if children.len() == 0 {
        Seq::empty()
    } else {
        sub_entries(children.drop_last(), prefix) + child_entries(children.last(), prefix)
    }
}

/// What a top-level target contributes: itself under its bare name, whatever
/// its kind, and then what its children contribute below that name.
pub open spec fn top_entry(entry: (Name, TargetView)) -> Seq<(Name, TargetView)> {
    seq![entry] + sub_entries(entry.1.children(), Some(entry.0))
}

/// What the top-level targets contribute, first target first.
pub open spec fn top_entries(top: Seq<(Name, TargetView)>) -> Seq<(Name, TargetView)>
    decreases top.len(),
{
    if top.len() == 0 {
        Seq::empty()
    } else {
        top_entries(top.drop_last()) + top_entry(top.last())
    }
}

/// The registry that holds `entries`: a name that comes again keeps its
/// place and takes the later target.
pub open spec fn collect(entries: Seq<(Name, TargetView)>) -> Seq<(Name, TargetView)> {
    put_all(Seq::empty(), entries)
}

/// The registry of what lies below `target`.
pub open spec fn sub_targets(target: TargetView, prefix: Option<Name>) -> Seq<(Name, TargetView)> {
    collect(sub_entries(target.children(), prefix))
}

/// The flattened registry of a definition with the top-level targets `top`.
pub open spec fn flatten(top: Seq<(Name, TargetView)>) -> Seq<(Name, TargetView)> {
    collect(top_entries(top))
}

/// The canonical names that flattening meets again: each is the name of an
/// entry that a former entry has already. None, exactly if every canonical
/// name stands for one target only.
pub open spec fn repeated_names(top: Seq<(Name, TargetView)>) -> Seq<Name> {
    repeats(Seq::empty(), top_entries(top))
}

/// `sub_entries` of one more child.
pub proof fn lemma_sub_entries_step(
    children: Seq<(Name, TargetView)>,
    prefix: Option<Name>,
    count: int,
)
    requires
        0 <= count < children.len(),
    ensures
        sub_entries(children.take(count + 1), prefix) == sub_entries(children.take(count), prefix)
            + child_entries(children[count], prefix),
{
    let longer = children.take(count + 1);
    assert(longer.drop_last() =~= children.take(count));
}

/// `top_entries` of one more target.
pub proof fn lemma_top_entries_step(top: Seq<(Name, TargetView)>, count: int)
    requires
        0 <= count < top.len(),
    ensures
        top_entries(top.take(count + 1)) == top_entries(top.take(count)) + top_entry(top[count]),
{
    let longer = top.take(count + 1);
    assert(longer.drop_last() =~= top.take(count));
}

/// The contributions of two runs of children, one after the other.
pub proof fn lemma_sub_entries_concat(
    first: Seq<(Name, TargetView)>,
    second: Seq<(Name, TargetView)>,
    prefix: Option<Name>,
)
    ensures
        sub_entries(first + second, prefix) == sub_entries(first, prefix) + sub_entries(
            second,
            prefix,
        ),
    decreases second.len(),
{
    if second.len() == 0 {
        assert(sub_entries(first, prefix) + sub_entries(second, prefix) =~= sub_entries(
            first,
            prefix,
        ));
    } else {
        assert((first + second).drop_last() =~= first + second.drop_last());
        lemma_sub_entries_concat(first, second.drop_last(), prefix);
        assert(sub_entries(first + second, prefix) =~= sub_entries(first, prefix) + sub_entries(
            second,
            prefix,
        ));
    }
}

/// The contributions of two runs of top-level targets, one after the other.
pub proof fn lemma_top_entries_concat(
    first: Seq<(Name, TargetView)>,
    second: Seq<(Name, TargetView)>,
)
    ensures
        top_entries(first + second) == top_entries(first) + top_entries(second),
    decreases second.len(),
{
    if second.len() == 0 {
        assert(first + second =~= first);
    } else {
        assert((first + second).drop_last() =~= first + second.drop_last());
        lemma_top_entries_concat(first, second.drop_last());
    }
}

/// Where in `sub_entries(children, prefix)` the contribution of the child
/// at `index` stands.
pub proof fn lemma_sub_entries_at(
    children: Seq<(Name, TargetView)>,
    prefix: Option<Name>,
    index: int,
)
    requires
        0 <= index < children.len(),
    ensures
        ({
            let from = sub_entries(children.take(index), prefix).len() as int;
            let part = child_entries(children[index], prefix);
            &&& from + part.len() <= sub_entries(children, prefix).len()
            &&& sub_entries(children, prefix).subrange(from, from + part.len()) == part
        }),
{
    let rest = children.skip(index + 1);
    assert(children =~= children.take(index + 1) + rest);
    lemma_sub_entries_concat(children.take(index + 1), rest, prefix);
    lemma_sub_entries_step(children, prefix, index);
    let from = sub_entries(children.take(index), prefix).len() as int;
    let part = child_entries(children[index], prefix);
    assert(sub_entries(children, prefix).subrange(from, from + part.len()) =~= part);
}

/// Where in `top_entries(top)` the contribution of the target at `index` stands.
pub proof fn lemma_top_entries_at(top: Seq<(Name, TargetView)>, index: int)
    requires
        0 <= index < top.len(),
    ensures
        ({
            let from = top_entries(top.take(index)).len() as int;
            let part = top_entry(top[index]);
            &&& from + part.len() <= top_entries(top).len()
            &&& top_entries(top).subrange(from, from + part.len()) == part
        }),
{
    let rest = top.skip(index + 1);
    assert(top =~= top.take(index + 1) + rest);
    lemma_top_entries_concat(top.take(index + 1), rest);
    lemma_top_entries_step(top, index);
    let from = top_entries(top.take(index)).len() as int;
    let part = top_entry(top[index]);
    assert(top_entries(top).subrange(from, from + part.len()) =~= part);
}

/// A registry holds a name exactly if one of the collected entries has it,
/// holds under it the target of the last such entry, and holds no name twice.
pub proof fn lemma_collect(entries: Seq<(Name, TargetView)>, name: Name)
    ensures
        distinct(collect(entries)),
        has_key(collect(entries), name) <==> has_key(entries, name),
        lookup(collect(entries), name) == last_with(entries, name),
{
    lemma_put_all(Seq::empty(), entries, name);
    lemma_last_with(entries, name);
    lemma_index_of(Seq::<(Name, TargetView)>::empty(), name);
}

/// A definition whose top-level targets have no children flattens to a
/// registry with exactly the top-level names as its keys. This holds in
/// particular where every top-level target is a command target.
pub proof fn lemma_flat_definition(top: Seq<(Name, TargetView)>)
    requires
        forall|i: int| 0 <= i < top.len() ==> (#[trigger] top[i]).1.children().len() == 0,
    ensures
        top_entries(top) == top,
        names(flatten(top)).to_set() == names(top).to_set(),
        forall|name: Name| has_key(flatten(top), name) <==> has_key(top, name),
    decreases top.len(),
{
    if top.len() > 0 {
        let front = top.drop_last();
        assert(forall|i: int| 0 <= i < front.len() ==> front[i] == top[i]);
        lemma_flat_definition(front);
        assert(top_entries(top) =~= top);
    }
    assert forall|name: Name| has_key(flatten(top), name) <==> has_key(top, name) by {
        lemma_collect(top, name);
    }
    assert forall|name: Name|
        names(flatten(top)).to_set().contains(name) <==> names(top).to_set().contains(name) by {
        lemma_names_contain(flatten(top), name);
        lemma_names_contain(top, name);
    }
}

/// The number of targets in `children` and below them.
pub open spec fn node_count(children: Seq<(Name, TargetView)>) -> nat
    decreases children,
{
    if children.len() == 0 {
        0
    } else {
        node_count(children.drop_last()) + 1 + match children.last().1.targets {
            Some(below) => node_count(below),
            None => 0,
        }
    }
}

/// Children contribute no more entries than there are targets in and below them.
pub proof fn lemma_sub_entries_len(children: Seq<(Name, TargetView)>, prefix: Option<Name>)
    ensures
        sub_entries(children, prefix).len() <= node_count(children),
    decreases children,
{
    if children.len() > 0 {
        lemma_sub_entries_len(children.drop_last(), prefix);
        let child = children.last();
        let part = child_entries(child, prefix);
        if !child.1.is_cmd() {
            match child.1.targets {
                Some(below) => {
                    lemma_sub_entries_len(below, descend(prefix, child.0));
                },
                None => {},
            }
        }
        assert(part.len() <= 1 + match child.1.targets {
            Some(below) => node_count(below),
            None => 0,
        });
        assert(sub_entries(children, prefix) == sub_entries(children.drop_last(), prefix) + part);
    }
}

/// The flattened registry is no larger than the tree: it has at most one
/// entry for each target of the definition.
pub proof fn lemma_flatten_len(top: Seq<(Name, TargetView)>)
    ensures
        flatten(top).len() <= top_entries(top).len() <= node_count(top),
    decreases top.len(),
{
    lemma_put_all_len(Seq::empty(), top_entries(top));
    if top.len() > 0 {
        lemma_flatten_len(top.drop_last());
        match top.last().1.targets {
            Some(below) => {
                lemma_sub_entries_len(below, Some(top.last().0));
            },
            None => {},
        }
    }
}

/// What a child contributes below the prefix `prefix` has a name that
/// begins with `prefix` and a dot.
pub proof fn lemma_child_entries_prefixed(child: (Name, TargetView), prefix: Name, index: int)
    requires
        0 <= index < child_entries(child, Some(prefix)).len(),
    ensures
        (prefix + seq!['.']).is_prefix_of(child_entries(child, Some(prefix))[index].0),
    decreases child,
{
    let start = prefix + seq!['.'];
    if child.1.is_cmd() {
        assert(join(prefix, child.0).subrange(0, start.len() as int) =~= start);
    } else {
        match child.1.targets {
            Some(children) => {
                let deeper = join(prefix, child.0);
                lemma_sub_entries_prefixed(children, deeper, index);
                let name = sub_entries(children, Some(deeper))[index].0;
                assert((deeper + seq!['.']).subrange(0, start.len() as int) =~= start);
                assert(name.subrange(0, start.len() as int) =~= name.subrange(
                    0,
                    (deeper.len() + 1) as int,
                ).subrange(0, start.len() as int));
            },
            None => {},
        }
    }
}

/// What children contribute below the prefix `prefix` has names that begin
/// with `prefix` and a dot.
pub proof fn lemma_sub_entries_prefixed(
    children: Seq<(Name, TargetView)>,
    prefix: Name,
    index: int,
)
    requires
        0 <= index < sub_entries(children, Some(prefix)).len(),
    ensures
        (prefix + seq!['.']).is_prefix_of(sub_entries(children, Some(prefix))[index].0),
    decreases children,
{
    if children.len() > 0 {
        let front = sub_entries(children.drop_last(), Some(prefix));
        if index < front.len() {
            lemma_sub_entries_prefixed(children.drop_last(), prefix, index);
        } else {
            lemma_child_entries_prefixed(children.last(), prefix, index - front.len());
        }
    }
}

/// What a child contributes are command targets only: a group below the
/// top level is itself never an entry.
pub proof fn lemma_child_entries_are_commands(
    child: (Name, TargetView),
    prefix: Option<Name>,
    index: int,
)
    requires
        0 <= index < child_entries(child, prefix).len(),
    ensures
        child_entries(child, prefix)[index].1.is_cmd(),
    decreases child,
{
    if !child.1.is_cmd() {
        match child.1.targets {
            Some(children) => {
                lemma_sub_entries_are_commands(children, descend(prefix, child.0), index);
            },
            None => {},
        }
    }
}

/// What children contribute are command targets only.
pub proof fn lemma_sub_entries_are_commands(
    children: Seq<(Name, TargetView)>,
    prefix: Option<Name>,
    index: int,
)
    requires
        0 <= index < sub_entries(children, prefix).len(),
    ensures
        sub_entries(children, prefix)[index].1.is_cmd(),
    decreases children,
{
    if children.len() > 0 {
        let front = sub_entries(children.drop_last(), prefix);
        if index < front.len() {
            lemma_sub_entries_are_commands(children.drop_last(), prefix, index);
        } else {
            lemma_child_entries_are_commands(children.last(), prefix, index - front.len());
        }
    }
}

/// The position, among the collected entries, of the command target that
/// stands at `leaf` below the group at `inner` below the top-level target
/// at `outer`.
pub open spec fn nested_position(
    top: Seq<(Name, TargetView)>,
    outer: int,
    inner: int,
    leaf: int,
) -> int {
    let first = top[outer];
    let second = first.1.children()[inner];
    (top_entries(top.take(outer)).len() + 1 + sub_entries(
        first.1.children().take(inner),
        Some(first.0),
    ).len() + sub_entries(
        second.1.children().take(leaf),
        Some(join(first.0, second.0)),
    ).len()) as int
}

/// A command target below the group `g2` below the top-level target `g1`
/// contributes one entry, under the name `g1.g2.` and its own name, and
/// the registry has that name. The registry holds the target under it
/// exactly if the last entry of that name, this one or a later one, holds
/// this target.
pub proof fn lemma_nested_leaf(top: Seq<(Name, TargetView)>, outer: int, inner: int, leaf: int)
    requires
        0 <= outer < top.len(),
        0 <= inner < top[outer].1.children().len(),
        !top[outer].1.children()[inner].1.is_cmd(),
        0 <= leaf < top[outer].1.children()[inner].1.children().len(),
        top[outer].1.children()[inner].1.children()[leaf].1.is_cmd(),
    ensures
        ({
            let first = top[outer];
            let second = first.1.children()[inner];
            let third = second.1.children()[leaf];
            let name = join(join(first.0, second.0), third.0);
            let at = nested_position(top, outer, inner, leaf);
            let entries = top_entries(top);
            &&& child_entries(third, Some(join(first.0, second.0))) == seq![(name, third.1)]
            &&& 0 <= at < entries.len()
            &&& entries[at] == (name, third.1)
            &&& has_key(flatten(top), name)
            &&& lookup(flatten(top), name) == Some(third.1) <==> exists|last: int|
                at <= last < entries.len() && #[trigger] entries[last] == (name, third.1)
                    && forall|later: int|
                    last < later < entries.len() ==> (#[trigger] entries[later]).0 != name
        }),
{
    let first = top[outer];
    let second = first.1.children()[inner];
    let third = second.1.children()[leaf];
    let below = Some(join(first.0, second.0));
    let name = join(join(first.0, second.0), third.0);
    let at = nested_position(top, outer, inner, leaf);
    let entries = top_entries(top);

    lemma_sub_entries_at(second.1.children(), below, leaf);
    let innermost = sub_entries(second.1.children(), below);
    let c = sub_entries(second.1.children().take(leaf), below).len() as int;
    assert(innermost.subrange(c, c + 1)[0] == innermost[c]);

    lemma_sub_entries_at(first.1.children(), Some(first.0), inner);
    let middle = sub_entries(first.1.children(), Some(first.0));
    let b = sub_entries(first.1.children().take(inner), Some(first.0)).len() as int;
    assert(child_entries(second, Some(first.0)) == innermost);

    lemma_top_entries_at(top, outer);
    let part = top_entry(first);
    assert(part[1 + b + c] == middle[b + c]);

    lemma_collect(entries, name);
    lemma_last_with(entries, name);
    let found = choose|i: int|
        0 <= i < entries.len() && (#[trigger] entries[i]).0 == name && last_with(entries, name)
            == Some(entries[i].1) && forall|j: int|
            i < j < entries.len() ==> (#[trigger] entries[j]).0 != name;
    assert(found >= at) by {
        if found < at {
            assert(entries[at].0 != name);
        }
    }
    if lookup(flatten(top), name) == Some(third.1) {
        assert(entries[found] == (name, third.1));
    }
    if exists|last: int|
        at <= last < entries.len() && #[trigger] entries[last] == (name, third.1) && forall|
            later: int,
        |
            last < later < entries.len() ==> (#[trigger] entries[later]).0 != name {
        let last = choose|last: int|
            at <= last < entries.len() && #[trigger] entries[last] == (name, third.1) && forall|
                later: int,
            |
                last < later < entries.len() ==> (#[trigger] entries[later]).0 != name;
        if last < found {
            assert(entries[found].0 != name);
        }
        if found < last {
            assert(entries[last].0 != name);
        }
    }
}

/// The canonical name of `name` below `prefix`.
pub fn join_names(prefix: &str, name: &str) -> (joined: String)
    ensures
        joined@ == join(prefix@, name@),
{
    let mut joined = String::from_str(prefix);
    joined.append(".");
    joined.append(name);
    proof {
        reveal_strlit(".");
    }
    joined
}

impl YakeTarget {
    /// Whether the target is of the command kind.
    pub fn is_cmd(&self) -> (cmd: bool)
        ensures
            cmd == self@.is_cmd(),
    {
        match self.meta.target_type {
            YakeTargetType::Cmd => true,
            YakeTargetType::Group => false,
        }
    }

    /// Stores in `registry` what lies below this target: each command target
    /// under its name qualified by `prefix`, and the contents of each group
    /// under the prefix that the group's name extends. A name that is met
    /// again takes the later target, and is appended to `repeated`.
    pub fn add_sub_targets(
        &self,
        prefix: &Option<String>,
        registry: &mut NameMap<YakeTarget>,
        repeated: &mut Vec<String>,
    )
        ensures
            final(registry).deep_view() == put_all(
                old(registry).deep_view(),
                sub_entries(self@.children(), prefix.deep_view()),
            ),
            final(repeated).deep_view() == old(repeated).deep_view() + repeats(
                old(registry).deep_view(),
                sub_entries(self@.children(), prefix.deep_view()),
            ),
        decreases self,
    {
        proof {
            lemma_children(*self);
        }
        let ghost before = registry.deep_view();
        let ghost met = repeated.deep_view();
        match &self.targets {
            Some(children) => {
                let ghost below = children.deep_view();
                let ghost at = prefix.deep_view();
                let mut i: usize = 0;
                assert(repeated.deep_view() =~= met + repeats(
                    before,
                    sub_entries(below.take(0), at),
                ));
                while i < children.len()
                    invariant
                        i <= children@.len(),
                        self.targets == Some(*children),
                        below == children.deep_view(),
                        at == prefix.deep_view(),
                        registry.deep_view() == put_all(
                            before,
                            sub_entries(below.take(i as int), at),
                        ),
                        repeated.deep_view() == met + repeats(
                            before,
                            sub_entries(below.take(i as int), at),
                        ),
                    decreases children@.len() - i,
                {
                    let name = children.name_at(i);
                    let child = children.value_at(i);
                    let ghost so_far = registry.deep_view();
                    let ghost met_so_far = repeated.deep_view();
                    proof {
                        lemma_sub_entries_step(below, at, i as int);
                        lemma_put_all_concat(
                            before,
                            sub_entries(below.take(i as int), at),
                            child_entries(below[i as int], at),
                        );
                        lemma_repeats_concat(
                            before,
                            sub_entries(below.take(i as int), at),
                            child_entries(below[i as int], at),
                        );
                        children.lemma_value_decreases(i as int);
                        lemma_children(*child);
                    }
                    if child.is_cmd() {
                        let full = match prefix {
                            Some(p) => join_names(p.as_str(), name.as_str()),
                            None => name.clone(),
                        };
                        let copy = child.clone();
                        proof {
                            lemma_deep_put(registry@, full@, copy);
                            lemma_deep_search(registry@, full@);
                            lemma_index_of(registry@, full@);
                            lemma_put_all_one(so_far, (full@, copy@));
                            lemma_repeats_one(so_far, (full@, copy@));
                        }
                        let again = full.clone();
                        let previous = registry.insert(full, copy);
                        if previous.is_some() {
                            repeated.push(again);
                            assert(repeated.deep_view() =~= met_so_far.push(again@));
                        }
                        assert(repeated.deep_view() =~= met + repeats(
                            before,
                            sub_entries(below.take(i + 1), at),
                        ));
                    } else {
                        let deeper = match prefix {
                            Some(p) => Some(join_names(p.as_str(), name.as_str())),
                            None => Some(name.clone()),
                        };
                        assert(decreases_to!(self => self.targets->0));
                        child.add_sub_targets(&deeper, registry, repeated);
                        proof {
                            if child.targets is None {
                                assert(sub_entries(child@.children(), deeper.deep_view())
                                    =~= Seq::empty());
                            }
                        }
                        assert(repeated.deep_view() =~= met + repeats(
                            before,
                            sub_entries(below.take(i + 1), at),
                        ));
                    }
                    i += 1;
                }
                assert(below.take(i as int) =~= below);
            },
            None => {
                assert(repeated.deep_view() =~= met + repeats(
                    before,
                    sub_entries(self@.children(), prefix.deep_view()),
                ));
            },
        }
    }

    /// The registry of what lies below this target, under names qualified
    /// by `prefix`. A name that is met again takes the later target.
    pub fn get_sub_targets(&self, prefix: Option<String>) -> (found: NameMap<YakeTarget>)
        ensures
            found.deep_view() == sub_targets(self@, prefix.deep_view()),
    {
        let mut found: NameMap<YakeTarget> = NameMap::new();
        let mut repeated: Vec<String> = Vec::new();
        assert(found.deep_view() =~= Seq::<(Name, TargetView)>::empty());
        self.add_sub_targets(&prefix, &mut found, &mut repeated);
        found
    }
}

} // verus!
