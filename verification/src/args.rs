//! What the command line asks for: a target, and parameters of the form
//! `key=value`.

use crate::name_map::{lemma_deep_put, put, Name, NameMap};
use crate::text::{trim, trimmed};
use vstd::prelude::*;

verus! {

/// The request of one invocation.
#[derive(Debug, PartialEq)]
pub struct YakeArgs {
    /// The name of the target to run.
    pub target: String,
    /// The parameters, by key.
    pub params: NameMap<String>,
}

/// The mathematical value of a `YakeArgs`.
pub struct ArgsView {
    /// The name of the target to run.
    pub target: Seq<char>,
    /// The parameters, by key.
    pub params: Seq<(Name, Seq<char>)>,
}

impl View for YakeArgs {
    type V = ArgsView;

    open spec fn view(&self) -> ArgsView {
        ArgsView { target: self.target@, params: self.params.deep_view() }
    }
}

/// The first position of `=` in `text`.
pub open spec fn first_equals(text: Seq<char>) -> Option<int>
    decreases text.len(),
{
    if text.len() == 0 {
        None
    } else {
        match first_equals(text.drop_last()) {
            Some(at) => Some(at),
            None => if text.last() == '=' {
                Some(text.len() - 1)
            } else {
                None
            },
        }
    }
}

/// The key and the value of a parameter: the text before and after its
/// `=`. A text without `=`, or with more than one, is no parameter.
pub open spec fn key_and_value(text: Seq<char>) -> Option<(Seq<char>, Seq<char>)> {
    match first_equals(text) {
        Some(at) => if first_equals(text.skip(at + 1)) is None {
            Some((text.take(at), text.skip(at + 1)))
        } else {
            None
        },
        None => None,
    }
}

/// The parameters that `texts` hold: each text that is a parameter is
/// stored under its key, a later one in place of an earlier one with the
/// same key; the others are passed over.
pub open spec fn parameters(texts: Seq<Seq<char>>) -> Seq<(Name, Seq<char>)>
    decreases texts.len(),
{
    if texts.len() == 0 {
        Seq::empty()
    } else {
        match key_and_value(texts.last()) {
            Some((key, value)) => put(parameters(texts.drop_last()), key, value),
            None => parameters(texts.drop_last()),
        }
    }
}

/// Each of `raw` without the white space at either end.
pub open spec fn all_trimmed(raw: Seq<Seq<char>>) -> Seq<Seq<char>> {
    Seq::new(raw.len(), |i: int| trimmed(raw[i]))
}

/// What `first_equals` finds.
pub proof fn lemma_first_equals(text: Seq<char>)
    ensures
        match first_equals(text) {
            Some(at) => 0 <= at < text.len() && text[at] == '=' && forall|j: int|
                0 <= j < at ==> text[j] != '=',
            None => forall|j: int| 0 <= j < text.len() ==> text[j] != '=',
        },
    decreases text.len(),
{
    if text.len() > 0 {
        lemma_first_equals(text.drop_last());
        assert(forall|j: int| 0 <= j < text.len() - 1 ==> text.drop_last()[j] == text[j]);
    }
}

/// The position of the first `=` in `text` at or after `from`.
fn find_equals(text: &str, from: usize) -> (found: Option<usize>)
    requires
        from <= text@.len(),
    ensures
        match found {
            Some(at) => from <= at < text@.len() && first_equals(text@.skip(from as int))
                == Some(at - from),
            None => first_equals(text@.skip(from as int)) is None,
        },
{
    let length = text.unicode_len();
    let ghost rest = text@.skip(from as int);
    let mut at: usize = from;
    while at < length
        invariant
            from <= at <= length,
            length == text@.len(),
            rest == text@.skip(from as int),
            forall|j: int| 0 <= j < at - from ==> rest[j] != '=',
        decreases length - at,
    {
        if text.get_char(at) == '=' {
            assert(rest[at - from] == '=');
            proof {
                lemma_first_equals(rest);
            }
            return Some(at);
        }
        at += 1;
    }
    proof {
        lemma_first_equals(rest);
    }
    None
}

/// The key and the value of the parameter `text`, if it is one.
pub fn parse_param(text: &str) -> (parsed: Option<(String, String)>)
    ensures
        match parsed {
            Some((key, value)) => key_and_value(text@) == Some((key@, value@)),
            None => key_and_value(text@) is None,
        },
{
    assert(text@.skip(0) =~= text@);
    match find_equals(text, 0) {
        Some(at) => {
            let length = text.unicode_len();
            match find_equals(text, at + 1) {
                Some(_) => None,
                None => {
                    let key = text.substring_char(0, at);
                    let value = text.substring_char(at + 1, length);
                    assert(key@ =~= text@.take(at as int));
                    Some((String::from_str(key), String::from_str(value)))
                },
            }
        },
        None => None,
    }
}

impl YakeArgs {
    /// The request that the texts of a command line make, once the white
    /// space around them is removed: the target name, and the parameters
    /// among `params`.
    pub fn from_trimmed(target: &str, params: &Vec<String>) -> (args: YakeArgs)
        ensures
            args@ == (ArgsView { target: target@, params: parameters(params.deep_view()) }),
    {
        let mut stored: NameMap<String> = NameMap::new();
        let ghost texts = params.deep_view();
        assert(stored.deep_view() =~= parameters(texts.take(0)));
        let mut i: usize = 0;
        while i < params.len()
            invariant
                i <= params@.len(),
                texts == params.deep_view(),
                stored.deep_view() == parameters(texts.take(i as int)),
            decreases params@.len() - i,
        {
            proof {
                let longer = texts.take(i + 1);
                assert(longer.drop_last() =~= texts.take(i as int));
            }
            match parse_param(params[i].as_str()) {
                Some((key, value)) => {
                    proof {
                        lemma_deep_put(stored@, key@, value);
                    }
                    stored.insert(key, value);
                },
                None => {},
            }
            i += 1;
        }
        assert(texts.take(i as int) =~= texts);
        YakeArgs { target: String::from_str(target), params: stored }
    }

    /// The request that the raw texts of a command line make: what they
    /// make once the white space around each of them is removed.
    pub fn new(target: &str, params: &Vec<String>) -> (args: YakeArgs)
        ensures
            args@ == (ArgsView {
                target: trimmed(target@),
                params: parameters(all_trimmed(params.deep_view())),
            }),
    {
        let mut texts: Vec<String> = Vec::new();
        let ghost raw = params.deep_view();
        let mut i: usize = 0;
        while i < params.len()
            invariant
                i <= params@.len(),
                raw == params.deep_view(),
                texts.deep_view() == all_trimmed(raw).take(i as int),
            decreases params@.len() - i,
        {
            let ghost before = texts.deep_view();
            let text = String::from_str(trim(params[i].as_str()));
            texts.push(text);
            assert(texts.deep_view() =~= before.push(text@));
            assert(texts.deep_view() =~= all_trimmed(raw).take(i + 1));
            i += 1;
        }
        assert(all_trimmed(raw).take(i as int) =~= all_trimmed(raw));
        YakeArgs::from_trimmed(trim(target), &texts)
    }
}

} // verus!
