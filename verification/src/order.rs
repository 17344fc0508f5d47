//! Strict total orders on keys.

use vstd::prelude::*;

verus! {

/// Where one key stands relative to another.
#[derive(Clone, Copy, Debug, PartialEq, Eq, Structural)]
pub enum Precedence {
    Before,
    Same,
    After,
}

/// A key whose mathematical model carries a strict total order that
/// `compare` decides.
pub trait Key: Sized {
    /// What a key stands for. Two keys are the same when their models are.
    type Model;

    spec fn model(&self) -> Self::Model;

    spec fn before(a: Self::Model, b: Self::Model) -> bool;

    proof fn lemma_irreflexive(a: Self::Model)
        ensures
            !Self::before(a, a),
    ;

    proof fn lemma_transitive(a: Self::Model, b: Self::Model, c: Self::Model)
        requires
            Self::before(a, b),
            Self::before(b, c),
        ensures
            Self::before(a, c),
    ;

    proof fn lemma_total(a: Self::Model, b: Self::Model)
        ensures
            a == b || Self::before(a, b) || Self::before(b, a),
    ;

    fn compare(&self, other: &Self) -> (standing: Precedence)
        ensures
            match standing {
                Precedence::Before => Self::before(self.model(), other.model()),
                Precedence::Same => self.model() == other.model(),
                Precedence::After => Self::before(other.model(), self.model()),
            },
    ;

    /// Another key that stands for the same.
    fn duplicate(&self) -> (copy: Self)
        ensures
            copy.model() == self.model(),
    ;
}

/// `a` and `b` agree on their first `i` elements.
pub open spec fn agree_until(a: Seq<int>, b: Seq<int>, i: int) -> bool {
    &&& 0 <= i <= a.len()
    &&& i <= b.len()
    &&& forall|j: int| 0 <= j < i ==> a[j] == b[j]
}

/// At position `i`, the first one where they differ, `a` ends or holds the
/// smaller element.
pub open spec fn lex_before_at(a: Seq<int>, b: Seq<int>, i: int) -> bool {
    &&& agree_until(a, b, i)
    &&& i < b.len()
    &&& i == a.len() || a[i] < b[i]
}

/// The lexicographic order on sequences of integers; a proper prefix comes
/// before what it is a prefix of.
pub open spec fn lex_before(a: Seq<int>, b: Seq<int>) -> bool {
    exists|i: int| #[trigger] lex_before_at(a, b, i)
}

pub proof fn lemma_lex_irreflexive(a: Seq<int>)
    ensures
        !lex_before(a, a),
{
}

pub proof fn lemma_lex_transitive(a: Seq<int>, b: Seq<int>, c: Seq<int>)
    requires
        lex_before(a, b),
        lex_before(b, c),
    ensures
        lex_before(a, c),
{
    let i = choose|i: int| #[trigger] lex_before_at(a, b, i);
    let j = choose|j: int| #[trigger] lex_before_at(b, c, j);
    if i <= j {
        assert(lex_before_at(a, c, i));
    } else {
        assert(lex_before_at(a, c, j));
    }
}

/// The first position at which two sequences differ, or the length of the
/// shorter one.
proof fn lemma_first_difference(a: Seq<int>, b: Seq<int>, from: int) -> (i: int)
    requires
        agree_until(a, b, from),
    ensures
        agree_until(a, b, i),
        i == a.len() || i == b.len() || a[i] != b[i],
    decreases a.len() - from,
{
    if from == a.len() || from == b.len() || a[from] != b[from] {
        from
    } else {
        lemma_first_difference(a, b, from + 1)
    }
}

pub proof fn lemma_lex_total(a: Seq<int>, b: Seq<int>)
    ensures
        a == b || lex_before(a, b) || lex_before(b, a),
{
    let i = lemma_first_difference(a, b, 0);
    if i == a.len() && i == b.len() {
        assert(a =~= b);
    } else if i == a.len() || (i < b.len() && a[i] < b[i]) {
        assert(lex_before_at(a, b, i));
    } else {
        assert(lex_before_at(b, a, i));
    }
}

impl Key for usize {
    type Model = usize;

    open spec fn model(&self) -> usize {
        *self
    }

    open spec fn before(a: usize, b: usize) -> bool {
        a < b
    }

    proof fn lemma_irreflexive(a: usize) {
    }

    proof fn lemma_transitive(a: usize, b: usize, c: usize) {
    }

    proof fn lemma_total(a: usize, b: usize) {
    }

    fn compare(&self, other: &usize) -> (standing: Precedence) {
        if *self < *other {
            assert(Self::before(self.model(), other.model()));
            Precedence::Before
        } else if *self == *other {
            Precedence::Same
        } else {
            assert(Self::before(other.model(), self.model()));
            Precedence::After
        }
    }

    fn duplicate(&self) -> (copy: usize) {
        *self
    }
}

} // verus!
