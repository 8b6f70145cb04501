//! Targets: the nodes of a definition, and their mathematical values.

use crate::name_map::{distinct, lemma_deep_put, lemma_index_of, Name, NameMap};
use crate::text::same_text;
use vstd::prelude::*;

verus! {

/// The two kinds of target.
#[derive(Debug, Clone, Copy, PartialEq, Eq, Structural)]
pub enum YakeTargetType {
    /// A group has no commands of its own, only sub-targets.
    Group,
    /// A command target has no sub-targets, only commands.
    Cmd,
}

impl YakeTargetType {
    /// The tag that stands for the kind in a definition: `group` or `cmd`.
    pub open spec fn tag_text(self) -> Seq<char> {
        match self {
            YakeTargetType::Group => "group"@,
            YakeTargetType::Cmd => "cmd"@,
        }
    }

    /// The tag that stands for the kind in a definition.
    pub fn tag(&self) -> (tag: &'static str)
        ensures
            tag@ == self.tag_text(),
    {
        match self {
            YakeTargetType::Group => "group",
            YakeTargetType::Cmd => "cmd",
        }
    }

    /// The kind that `tag` stands for. Any text but the two tags is refused,
    /// with a message that quotes it.
    pub fn from_tag(tag: &str) -> (kind: Result<YakeTargetType, String>)
        ensures
            match kind {
                Ok(kind) => tag@ == kind.tag_text(),
                Err(message) => tag@ != YakeTargetType::Group.tag_text() && tag@
                    != YakeTargetType::Cmd.tag_text() && message@ == "unknown target type '"@
                    + tag@ + "'"@,
            },
    {
        if same_text(tag, "group") {
            Ok(YakeTargetType::Group)
        } else if same_text(tag, "cmd") {
            Ok(YakeTargetType::Cmd)
        } else {
            let mut message = String::from_str("unknown target type '");
            message.append(tag);
            message.append("'");
            Err(message)
        }
    }
}

/// The two tags differ, so a tag stands for one kind only.
pub proof fn lemma_tags_differ()
    ensures
        YakeTargetType::Group.tag_text() != YakeTargetType::Cmd.tag_text(),
{
    reveal_strlit("group");
    reveal_strlit("cmd");
    assert("group"@.len() != "cmd"@.len());
}

/// What a target says of itself.
#[derive(Debug, PartialEq)]
pub struct YakeTargetMeta {
    /// Free text that describes the target.
    pub doc: String,
    /// The kind of the target.
    pub target_type: YakeTargetType,
    /// The canonical names of the targets to run first.
    pub depends: Option<Vec<String>>,
}

/// A named unit of a definition: a group of sub-targets, or a list of commands.
#[derive(Debug, PartialEq)]
pub struct YakeTarget {
    /// What the target says of itself.
    pub meta: YakeTargetMeta,
    /// The sub-targets of a group.
    pub targets: Option<NameMap<YakeTarget>>,
    /// Names of environment variables to surface.
    pub env: Option<Vec<String>>,
    /// The shell commands of a command target, in the order to run them.
    pub commands: Option<Vec<String>>,
}

/// The mathematical value of a `YakeTargetMeta`.
pub struct TargetMetaView {
    /// Free text that describes the target.
    pub doc: Seq<char>,
    /// The kind of the target.
    pub target_type: YakeTargetType,
    /// The canonical names of the targets to run first.
    pub depends: Option<Seq<Name>>,
}

/// The mathematical value of a `YakeTarget`: a tree whose children are
/// listed by name, oldest first.
pub struct TargetView {
    /// What the target says of itself.
    pub meta: TargetMetaView,
    /// The sub-targets, by name.
    pub targets: Option<Seq<(Name, TargetView)>>,
    /// Names of environment variables to surface.
    pub env: Option<Seq<Seq<char>>>,
    /// The shell commands, in the order to run them.
    pub commands: Option<Seq<Seq<char>>>,
}

impl TargetView {
    /// Whether the target is of the command kind.
    pub open spec fn is_cmd(self) -> bool {
        self.meta.target_type == YakeTargetType::Cmd
    }

    /// The children, none where the target has no map of them.
    pub open spec fn children(self) -> Seq<(Name, TargetView)> {
        match self.targets {
            Some(children) => children,
            None => Seq::empty(),
        }
    }

    /// The names this target declares as dependencies, none where it declares no list.
    pub open spec fn depends(self) -> Seq<Name> {
        match self.meta.depends {
            Some(names) => names,
            None => Seq::empty(),
        }
    }

    /// The commands of the target, none where it has no list.
    pub open spec fn command_lines(self) -> Seq<Seq<char>> {
        match self.commands {
            Some(lines) => lines,
            None => Seq::empty(),
        }
    }
}

impl View for YakeTargetMeta {
    type V = TargetMetaView;

    open spec fn view(&self) -> TargetMetaView {
        TargetMetaView {
            doc: self.doc@,
            target_type: self.target_type,
            depends: self.depends.deep_view(),
        }
    }
}

/// Stored entries as mathematical values.
pub open spec fn stored_view(stored: Seq<(String, YakeTarget)>) -> Seq<(Name, TargetView)>
    decreases stored,
{
    if stored.len() == 0 {
        Seq::empty()
    } else {
        stored_view(stored.drop_last()).push((stored.last().0@, stored.last().1.view()))
    }
}

impl View for YakeTarget {
    type V = TargetView;

    open spec fn view(&self) -> TargetView
        decreases self,
    {
        TargetView {
            meta: self.meta@,
            targets: match self.targets {
                Some(map) => {
                    proof {
                        map.lemma_stored_decreases();
                    }
                    Some(stored_view(map.stored()))
                },
                None => None,
            },
            env: self.env.deep_view(),
            commands: self.commands.deep_view(),
        }
    }
}

impl DeepView for YakeTarget {
    type V = TargetView;

    open spec fn deep_view(&self) -> TargetView {
        self@
    }
}

/// `stored_view` goes entry by entry.
pub proof fn lemma_stored_view(stored: Seq<(String, YakeTarget)>)
    ensures
        stored_view(stored).len() == stored.len(),
        forall|i: int|
            0 <= i < stored.len() ==> #[trigger] stored_view(stored)[i] == (
                stored[i].0@,
                stored[i].1@,
            ),
    decreases stored.len(),
{
    if stored.len() > 0 {
        lemma_stored_view(stored.drop_last());
        assert(stored_view(stored) == stored_view(stored.drop_last()).push(
            (stored.last().0@, stored.last().1@),
        ));
    } else {
        assert(stored_view(stored) == Seq::<(Name, TargetView)>::empty());
    }
}

/// The children of a target's value are the deep view of its map.
pub proof fn lemma_children(target: YakeTarget)
    ensures
        target@.targets == target.targets.deep_view(),
        target@.children() == match target.targets {
            Some(map) => map.deep_view(),
            None => Seq::empty(),
        },
{
    match target.targets {
        Some(map) => {
            map.lemma_view_of_stored();
            lemma_stored_view(map.stored());
        },
        None => {},
    }
}

impl Clone for YakeTargetMeta {
    fn clone(&self) -> (copy: Self)
        ensures
            copy@ == self@,
    {
        YakeTargetMeta {
            doc: self.doc.clone(),
            target_type: self.target_type,
            depends: self.depends.clone(),
        }
    }
}

impl Clone for YakeTarget {
    fn clone(&self) -> (copy: Self)
        ensures
            copy@ == self@,
        decreases self,
    {
        let targets = match &self.targets {
            Some(map) => Some(clone_targets(map)),
            None => None,
        };
        let copy = YakeTarget {
            meta: self.meta.clone(),
            targets,
            env: self.env.clone(),
            commands: self.commands.clone(),
        };
        proof {
            lemma_children(*self);
            lemma_children(copy);
        }
        copy
    }
}

/// A copy of a map of targets, with the same names in the same order and
/// the same value under each.
pub fn clone_targets(map: &NameMap<YakeTarget>) -> (copy: NameMap<YakeTarget>)
    ensures
        copy.deep_view() == map.deep_view(),
    decreases map,
{
    proof {
        use_type_invariant(map);
    }
    let mut copy: NameMap<YakeTarget> = NameMap::new();
    let mut i: usize = 0;
    while i < map.len()
        invariant
            i <= map@.len(),
            distinct(map@),
            copy.deep_view() == map.deep_view().take(i as int),
        decreases map@.len() - i,
    {
        let name = map.name_at(i).clone();
        proof {
            map.lemma_value_decreases(i as int);
        }
        let child = map.value_at(i).clone();
        proof {
            lemma_deep_put(copy@, name@, child);
            lemma_index_of(copy.deep_view(), name@);
            assert forall|j: int| 0 <= j < i implies (#[trigger] copy.deep_view()[j]).0
                != name@ by {
                assert(copy.deep_view()[j] == map.deep_view()[j]);
            }
        }
        copy.insert(name, child);
        i += 1;
    }
    copy
}

} // verus!
