//! Small operations on text that the rest of the library shares.

use vstd::prelude::*;

verus! {

/// Whether `c` is white space, as `char::is_whitespace` of the standard
/// library tells.
pub uninterp spec fn white_space(c: char) -> bool;

/// Calls `char::is_whitespace`. Nothing is proved of it: the result is
/// taken to depend on the character alone, and is given the name
/// `white_space`.
#[verifier::external_body]
fn is_white_space(c: char) -> (white: bool)
    ensures
        white == white_space(c),
{
    c.is_whitespace()
}

/// `text` without the white space it begins with.
pub open spec fn trim_start(text: Seq<char>) -> Seq<char>
    decreases text.len(),
{
    if text.len() > 0 && white_space(text.first()) {
        trim_start(text.drop_first())
    } else {
        text
    }
}

/// `text` without the white space it ends with.
pub open spec fn trim_end(text: Seq<char>) -> Seq<char>
    decreases text.len(),
{
    if text.len() > 0 && white_space(text.last()) {
        trim_end(text.drop_last())
    } else {
        text
    }
}

/// `text` without the white space at either end.
pub open spec fn trimmed(text: Seq<char>) -> Seq<char> {
    trim_end(trim_start(text))
}

/// A text that neither begins nor ends with white space is its own
/// trimmed text; so is the empty text.
pub proof fn lemma_trimmed_unchanged(text: Seq<char>)
    requires
        text.len() > 0 ==> !white_space(text.first()) && !white_space(text.last()),
    ensures
        trimmed(text) == text,
{
}

/// Whether two texts are the same.
pub fn same_text(first: &str, second: &str) -> (same: bool)
    ensures
        same == (first@ == second@),
{
    String::from_str(first) == String::from_str(second)
}

/// `text` without the white space at either end.
pub fn trim(text: &str) -> (kept: &str)
    ensures
        kept@ == trimmed(text@),
{
    let length = text.unicode_len();
    let mut from: usize = 0;
    assert(text@.skip(0) =~= text@);
    while from < length && is_white_space(text.get_char(from))
        invariant
            from <= length,
            length == text@.len(),
            trim_start(text@) == trim_start(text@.skip(from as int)),
        decreases length - from,
    {
        assert(text@.skip(from as int).drop_first() =~= text@.skip(from + 1));
        from += 1;
    }
    proof {
        if from < length {
            assert(text@.skip(from as int).first() == text@[from as int]);
        }
    }
    let mut to: usize = length;
    let ghost rest = text@.skip(from as int);
    assert(rest =~= text@.subrange(from as int, to as int));
    while to > from && is_white_space(text.get_char(to - 1))
        invariant
            from <= to <= length,
            length == text@.len(),
            rest == text@.skip(from as int),
            trim_end(rest) == trim_end(text@.subrange(from as int, to as int)),
        decreases to - from,
    {
        let ghost part = text@.subrange(from as int, to as int);
        assert(part.last() == text@[to - 1]);
        assert(part.drop_last() =~= text@.subrange(from as int, to - 1));
        to -= 1;
    }
    proof {
        let part = text@.subrange(from as int, to as int);
        if to > from {
            assert(part.last() == text@[to - 1]);
        }
    }
    text.substring_char(from, to)
}

} // verus!
