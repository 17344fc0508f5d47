//! Pieces of text.

use vstd::prelude::*;

verus! {

/// The pieces of `s` between the occurrences of `separator`. There is always
/// at least one; pieces can be empty.
pub open spec fn split(s: Seq<char>, separator: char) -> Seq<Seq<char>>
    decreases s.len(),
{
    if s.len() == 0 {
        seq![Seq::<char>::empty()]
    } else {
        let pieces = split(s.drop_last(), separator);
        if s.last() == separator {
            pieces.push(Seq::<char>::empty())
        } else {
            pieces.drop_last().push(pieces.last().push(s.last()))
        }
    }
}

pub proof fn lemma_split_nonempty(s: Seq<char>, separator: char)
    ensures
        split(s, separator).len() > 0,
    decreases s.len(),
{
    if s.len() > 0 {
        lemma_split_nonempty(s.drop_last(), separator);
    }
}

/// Splitting text that is one character longer.
pub proof fn lemma_split_push(s: Seq<char>, c: char, separator: char)
    ensures
        split(s.push(c), separator) == (if c == separator {
            split(s, separator).push(Seq::<char>::empty())
        } else {
            split(s, separator).drop_last().push(split(s, separator).last().push(c))
        }),
        split(s, separator).len() > 0,
{
    assert(s.push(c).drop_last() =~= s);
    lemma_split_nonempty(s, separator);
}

/// The characters of `s`, one by one.
pub fn chars_of(s: &str) -> (chars: Vec<char>)
    ensures
        chars@ == s@,
{
    let mut chars: Vec<char> = Vec::new();
    for c in it: s.chars()
        invariant
            it.seq() == s@,
            chars@ == s@.take(it.index() as int),
    {
        chars.push(c);
        assert(chars@ =~= s@.take(it.index() + 1));
    }
    assert(s@.take(s@.len() as int) =~= s@);
    chars
}

} // verus!
