//! Paths: which target of the tree stands behind each entry of a registry.
//!
//! A path is the list of positions to follow from some children on:
//! the position of a child, then the position of one of its children, and
//! so on.

use crate::flatten::{
    child_entries, descend, lemma_sub_entries_at, lemma_sub_entries_concat, qualified,
    sub_entries, top_entries, top_entry,
};
use crate::name_map::Name;
use crate::target::TargetView;
use vstd::prelude::*;

verus! {

/// Whether `path` leads from `children` through targets that are no command
/// targets to a command target.
pub open spec fn leads_to_command(children: Seq<(Name, TargetView)>, path: Seq<int>) -> bool
    decreases path.len(),
{
    &&& path.len() > 0
    &&& 0 <= path[0] < children.len()
    &&& if path.len() == 1 {
        children[path[0]].1.is_cmd()
    } else {
        !children[path[0]].1.is_cmd() && leads_to_command(
            children[path[0]].1.children(),
            path.drop_first(),
        )
    }
}

/// The target at the end of `path`.
pub open spec fn node_at(children: Seq<(Name, TargetView)>, path: Seq<int>) -> TargetView
    decreases path.len(),
{
    if path.len() <= 1 {
        children[path[0]].1
    } else {
        node_at(children[path[0]].1.children(), path.drop_first())
    }
}

/// The canonical name of the target at the end of `path`: the names of the
/// targets on the path, first to last, joined by dots, after `prefix` and a
/// dot where there is a prefix.
pub open spec fn name_at(
    children: Seq<(Name, TargetView)>,
    prefix: Option<Name>,
    path: Seq<int>,
) -> Name
    decreases path.len(),
{
    if path.len() <= 1 {
        qualified(prefix, children[path[0]].0)
    } else {
        name_at(
            children[path[0]].1.children(),
            descend(prefix, children[path[0]].0),
            path.drop_first(),
        )
    }
}

/// The names of the targets on `path`, first to last.
pub open spec fn names_on(children: Seq<(Name, TargetView)>, path: Seq<int>) -> Seq<Name>
    decreases path.len(),
{
    if path.len() == 0 {
        Seq::empty()
    } else if path.len() == 1 {
        seq![children[path[0]].0]
    } else {
        seq![children[path[0]].0] + names_on(children[path[0]].1.children(), path.drop_first())
    }
}

/// The names `names` joined by dots, after `prefix` and a dot where there
/// is a prefix.
pub open spec fn dotted(prefix: Option<Name>, names: Seq<Name>) -> Name
    decreases names.len(),
{
    if names.len() == 0 {
        match prefix {
            Some(p) => p,
            None => Seq::empty(),
        }
    } else {
        dotted(Some(qualified(prefix, names.first())), names.drop_first())
    }
}

/// The canonical name of the target at the end of a path is the names on
/// the path joined by dots.
pub proof fn lemma_name_at(children: Seq<(Name, TargetView)>, prefix: Option<Name>, path: Seq<int>)
    requires
        path.len() > 0,
    ensures
        name_at(children, prefix, path) == dotted(prefix, names_on(children, path)),
    decreases path.len(),
{
    let first = children[path[0]];
    let names = names_on(children, path);
    if path.len() == 1 {
        assert(names.drop_first() =~= Seq::<Name>::empty());
        assert(dotted(Some(qualified(prefix, first.0)), names.drop_first()) == qualified(
            prefix,
            first.0,
        ));
    } else {
        lemma_name_at(first.1.children(), descend(prefix, first.0), path.drop_first());
        assert(names.drop_first() =~= names_on(first.1.children(), path.drop_first()));
    }
}

/// Three names joined by dots.
pub proof fn lemma_dotted_three(first: Name, second: Name, third: Name)
    ensures
        dotted(None, seq![first, second, third]) == first + seq!['.'] + second + seq!['.'] + third,
{
    let all = seq![first, second, third];
    assert(all.drop_first() =~= seq![second, third]);
    assert(seq![second, third].drop_first() =~= seq![third]);
    assert(seq![third].drop_first() =~= Seq::<Name>::empty());
    reveal_with_fuel(dotted, 4);
}

/// The position, among what `children` contribute, of the entry for the
/// target at the end of `path`.
pub open spec fn position_at(
    children: Seq<(Name, TargetView)>,
    prefix: Option<Name>,
    path: Seq<int>,
) -> int
    decreases path.len(),
{
    if path.len() <= 1 {
        sub_entries(children.take(path[0]), prefix).len() as int
    } else {
        sub_entries(children.take(path[0]), prefix).len() + position_at(
            children[path[0]].1.children(),
            descend(prefix, children[path[0]].0),
            path.drop_first(),
        )
    }
}

/// The path to the target behind the entry at `position` among what
/// `children` contribute.
pub open spec fn path_of(
    children: Seq<(Name, TargetView)>,
    prefix: Option<Name>,
    position: int,
) -> Seq<int>
    decreases children,
{
    if children.len() == 0 {
        Seq::empty()
    } else {
        let front = sub_entries(children.drop_last(), prefix).len();
        if position < front {
            path_of(children.drop_last(), prefix, position)
        } else if children.last().1.is_cmd() {
            seq![children.len() - 1]
        } else {
            match children.last().1.targets {
                Some(below) => seq![children.len() - 1] + path_of(
                    below,
                    descend(prefix, children.last().0),
                    position - front,
                ),
                None => Seq::empty(),
            }
        }
    }
}

/// The number of command targets that can be reached from `children`
/// through targets that are no command targets.
pub open spec fn command_count(children: Seq<(Name, TargetView)>) -> nat
    decreases children,
{
    if children.len() == 0 {
        0
    } else if children.last().1.is_cmd() {
        command_count(children.drop_last()) + 1
    } else {
        command_count(children.drop_last()) + match children.last().1.targets {
            Some(below) => command_count(below),
            None => 0,
        }
    }
}

/// The number of command targets below the top-level targets.
pub open spec fn nested_count(top: Seq<(Name, TargetView)>) -> nat
    decreases top.len(),
{
    if top.len() == 0 {
        0
    } else {
        nested_count(top.drop_last()) + command_count(top.last().1.children())
    }
}

/// Children contribute one entry for each command target that can be
/// reached from them.
pub proof fn lemma_sub_entries_count(children: Seq<(Name, TargetView)>, prefix: Option<Name>)
    ensures
        sub_entries(children, prefix).len() == command_count(children),
    decreases children,
{
    if children.len() > 0 {
        lemma_sub_entries_count(children.drop_last(), prefix);
        let child = children.last();
        if !child.1.is_cmd() {
            match child.1.targets {
                Some(below) => {
                    lemma_sub_entries_count(below, descend(prefix, child.0));
                },
                None => {},
            }
        }
        assert(sub_entries(children, prefix) == sub_entries(children.drop_last(), prefix)
            + child_entries(child, prefix));
    }
}

/// The top-level targets contribute one entry each, and one for each
/// command target below them.
pub proof fn lemma_top_entries_count(top: Seq<(Name, TargetView)>)
    ensures
        top_entries(top).len() == top.len() + nested_count(top),
    decreases top.len(),
{
    if top.len() > 0 {
        lemma_top_entries_count(top.drop_last());
        lemma_sub_entries_count(top.last().1.children(), Some(top.last().0));
    }
}

/// More children contribute no fewer entries.
pub proof fn lemma_sub_entries_grow(
    children: Seq<(Name, TargetView)>,
    prefix: Option<Name>,
    fewer: int,
    more: int,
)
    requires
        0 <= fewer <= more <= children.len(),
    ensures
        sub_entries(children.take(fewer), prefix).len() <= sub_entries(
            children.take(more),
            prefix,
        ).len(),
{
    assert(children.take(more) =~= children.take(fewer) + children.subrange(fewer, more));
    lemma_sub_entries_concat(children.take(fewer), children.subrange(fewer, more), prefix);
}

/// A command target at the end of a path contributes the entry at the
/// position of the path: its canonical name, and the target itself. The
/// position lies among the entries of the first child on the path.
pub proof fn lemma_path_entry(
    children: Seq<(Name, TargetView)>,
    prefix: Option<Name>,
    path: Seq<int>,
)
    requires
        leads_to_command(children, path),
    ensures
        ({
            let at = position_at(children, prefix, path);
            let from = sub_entries(children.take(path[0]), prefix).len();
            &&& 0 <= at < sub_entries(children, prefix).len()
            &&& from <= at < from + child_entries(children[path[0]], prefix).len()
            &&& sub_entries(children, prefix)[at] == (
                name_at(children, prefix, path),
                node_at(children, path),
            )
        }),
    decreases path.len(),
{
    let first = path[0];
    let child = children[first];
    let from = sub_entries(children.take(first), prefix).len() as int;
    let part = child_entries(child, prefix);
    let all = sub_entries(children, prefix);
    lemma_sub_entries_at(children, prefix, first);
    if path.len() == 1 {
        assert(all.subrange(from, from + part.len())[0] == all[from]);
    } else {
        let rest = path.drop_first();
        let deeper = descend(prefix, child.0);
        lemma_path_entry(child.1.children(), deeper, rest);
        assert(child.1.targets is Some);
        let inner = position_at(child.1.children(), deeper, rest);
        assert(part == sub_entries(child.1.children(), deeper));
        assert(all.subrange(from, from + part.len())[inner] == all[from + inner]);
    }
}

/// A path below all but the last child is the same path below all children.
pub proof fn lemma_path_below_front(
    children: Seq<(Name, TargetView)>,
    prefix: Option<Name>,
    path: Seq<int>,
)
    requires
        children.len() > 0,
        leads_to_command(children.drop_last(), path),
    ensures
        leads_to_command(children, path),
        position_at(children, prefix, path) == position_at(children.drop_last(), prefix, path),
{
    let front = children.drop_last();
    assert(front[path[0]] == children[path[0]]);
    assert(front.take(path[0]) =~= children.take(path[0]));
}

/// Behind every entry stands a command target at the end of a path, and
/// the entry is at the position of that path.
pub proof fn lemma_path_of(
    children: Seq<(Name, TargetView)>,
    prefix: Option<Name>,
    position: int,
)
    requires
        0 <= position < sub_entries(children, prefix).len(),
    ensures
        leads_to_command(children, path_of(children, prefix, position)),
        position_at(children, prefix, path_of(children, prefix, position)) == position,
    decreases children,
{
    if children.len() > 0 {
        let front = children.drop_last();
        let before = sub_entries(front, prefix).len() as int;
        let child = children.last();
        let last = children.len() - 1;
        assert(children.take(last) =~= front);
        assert(sub_entries(children, prefix) == sub_entries(front, prefix) + child_entries(
            child,
            prefix,
        ));
        assert(children[last] == child);
        if position < before {
            lemma_path_of(front, prefix, position);
            lemma_path_below_front(children, prefix, path_of(front, prefix, position));
        } else if child.1.is_cmd() {
            let path = seq![last];
            assert(path[0] == last);
            assert(leads_to_command(children, path));
        } else {
            match child.1.targets {
                Some(below) => {
                    let deeper = descend(prefix, child.0);
                    let inner = path_of(below, deeper, position - before);
                    assert(child_entries(child, prefix) == sub_entries(below, deeper));
                    lemma_path_of(below, deeper, position - before);
                    let path = seq![last] + inner;
                    assert(path[0] == last);
                    assert(path.drop_first() =~= inner);
                    assert(inner.len() > 0);
                    assert(child.1.children() == below);
                    assert(leads_to_command(children, path));
                },
                None => {},
            }
        }
    }
}

/// Two paths to command targets with the same position are the same path:
/// an entry stands for the target on one path only.
pub proof fn lemma_one_path(
    children: Seq<(Name, TargetView)>,
    prefix: Option<Name>,
    first: Seq<int>,
    second: Seq<int>,
)
    requires
        leads_to_command(children, first),
        leads_to_command(children, second),
        position_at(children, prefix, first) == position_at(children, prefix, second),
    ensures
        first == second,
    decreases first.len(),
{
    lemma_path_entry(children, prefix, first);
    lemma_path_entry(children, prefix, second);
    let i = first[0];
    let j = second[0];
    if i < j {
        lemma_sub_entries_grow(children, prefix, i + 1, j);
        lemma_sub_entries_at(children, prefix, i);
        crate::flatten::lemma_sub_entries_step(children, prefix, i);
    }
    if j < i {
        lemma_sub_entries_grow(children, prefix, j + 1, i);
        lemma_sub_entries_at(children, prefix, j);
        crate::flatten::lemma_sub_entries_step(children, prefix, j);
    }
    assert(i == j);
    if first.len() == 1 {
        assert(first =~= second);
    } else {
        lemma_one_path(
            children[i].1.children(),
            descend(prefix, children[i].0),
            first.drop_first(),
            second.drop_first(),
        );
        assert(first =~= seq![i] + first.drop_first());
        assert(second =~= seq![j] + second.drop_first());
    }
}

/// The position of the top-level target that contributes the entry at
/// `position` among what the top-level targets contribute.
pub open spec fn top_index(top: Seq<(Name, TargetView)>, position: int) -> int
    decreases top.len(),
{
    if top.len() == 0 || position >= top_entries(top.drop_last()).len() {
        top.len() - 1
    } else {
        top_index(top.drop_last(), position)
    }
}

/// Every entry that the top-level targets contribute is one of them, under
/// its bare name, or an entry that its children contribute below that name.
pub proof fn lemma_top_entry(top: Seq<(Name, TargetView)>, position: int)
    requires
        0 <= position < top_entries(top).len(),
    ensures
        ({
            let index = top_index(top, position);
            let from = top_entries(top.take(index)).len();
            let below = sub_entries(top[index].1.children(), Some(top[index].0));
            &&& 0 <= index < top.len()
            &&& from <= position <= from + below.len()
            &&& position == from ==> top_entries(top)[position] == top[index]
            &&& position > from ==> top_entries(top)[position] == below[position - from - 1]
        }),
    decreases top.len(),
{
    let front = top.drop_last();
    let last = top.len() - 1;
    assert(top.take(last) =~= front);
    if position < top_entries(front).len() {
        lemma_top_entry(front, position);
        let index = top_index(front, position);
        assert(front.take(index) =~= top.take(index));
        assert(front[index] == top[index]);
    } else {
        assert(top_entries(top) == top_entries(front) + top_entry(top.last()));
    }
}

} // verus!
