//! Relative paths inside a worktree.

use crate::order;
use crate::order::{Key, Precedence};
use crate::text;
use vstd::prelude::*;
use vstd::std_specs::iter::IteratorSpec;

verus! {

/// A component that names a file or directory: not empty, and neither the
/// directory itself nor its parent.
pub open spec fn names_entry(component: Seq<char>) -> bool {
    &&& component.len() > 0
    &&& component != seq!['.']
    &&& component != seq!['.', '.']
}

/// The components of a path, from the worktree's root down. The empty path,
/// which is the root itself, has none.
pub open spec fn components(path: Seq<char>) -> Seq<Seq<char>> {
    if path.len() == 0 {
        Seq::empty()
    } else {
        text::split(path, '/')
    }
}

/// The text is a path in normal form: every component names an entry.
pub open spec fn is_normal(path: Seq<char>) -> bool {
    forall|i: int|
        0 <= i < components(path).len() ==> names_entry(#[trigger] components(path)[i])
}

/// The rank of a character in the order of paths: the separator comes before
/// every other one.
pub open spec fn rank(c: char) -> int {
    if c == '/' {
        0
    } else {
        c as int + 1
    }
}

pub open spec fn ranks(path: Seq<char>) -> Seq<int> {
    Seq::new(path.len(), |i: int| rank(path[i]))
}

/// The order of paths. With the separator ranked first, what is below a
/// directory comes right after it: `a/b` comes before `a.b`.
pub open spec fn path_before(a: Seq<char>, b: Seq<char>) -> bool {
    order::lex_before(ranks(a), ranks(b))
}

/// `path` is `directory` or lies somewhere below it.
pub open spec fn lies_under(path: Seq<char>, directory: Seq<char>) -> bool {
    ||| directory.len() == 0
    ||| {
        &&& directory.len() <= path.len()
        &&& path.take(directory.len() as int) == directory
        &&& directory.len() == path.len() || path[directory.len() as int] == '/'
    }
}

/// The extension of a path's last component: what follows its last dot, where
/// that dot is not the component's first character.
pub open spec fn extension_of(path: Seq<char>) -> Option<Seq<char>> {
    if path.len() == 0 {
        None
    } else {
        let name = components(path).last();
        match name.index_of_last('.') {
            Some(dot) => if dot == 0 {
                None
            } else {
                Some(name.skip(dot + 1))
            },
            None => None,
        }
    }
}

/// How far a component has been read.
#[derive(Clone, Copy)]
enum ComponentProgress {
    Empty,
    Dot,
    DotDot,
    Name,
}

spec fn progress_of(component: Seq<char>) -> ComponentProgress {
    if component.len() == 0 {
        ComponentProgress::Empty
    } else if component == seq!['.'] {
        ComponentProgress::Dot
    } else if component == seq!['.', '.'] {
        ComponentProgress::DotDot
    } else {
        ComponentProgress::Name
    }
}

/// The text is no relative path in normal form.
#[derive(Clone, Copy, Debug, PartialEq, Eq, Structural)]
pub struct InvalidRelPath;

/// A relative path in normal form: components that name entries, joined by
/// `/`. The empty path is the root.
#[derive(Debug)]
pub struct RelPath {
    text: String,
}

impl View for RelPath {
    type V = Seq<char>;

    closed spec fn view(&self) -> Seq<char> {
        self.text@
    }
}

impl Clone for RelPath {
    fn clone(&self) -> (copy: Self)
        ensures
            copy == *self,
    {
        proof {
            use_type_invariant(self);
        }
        RelPath { text: self.text.clone() }
    }
}

/// The texts of paths.
pub open spec fn texts_of(paths: Seq<RelPath>) -> Seq<Seq<char>> {
    Seq::new(paths.len(), |i: int| paths[i]@)
}

impl RelPath {
    #[verifier::type_invariant]
    closed spec fn normal(&self) -> bool {
        is_normal(self.text@)
    }

    /// Takes a path in normal form, as it is written with `/` between the
    /// components.
    pub fn from_unix_str(text: &str) -> (parsed: Result<RelPath, InvalidRelPath>)
        ensures
            parsed is Ok <==> is_normal(text@),
            parsed matches Ok(path) ==> path@ == text@,
    {
        let ghost s = text@;
        let mut progress = ComponentProgress::Empty;
        let mut normal = true;
        assert(s.take(0) =~= Seq::<char>::empty());
        for c in it: text.chars()
            invariant
                s == text@,
                it.seq() == s,
                text::split(s.take(it.index() as int), '/').len() > 0,
                progress == progress_of(text::split(s.take(it.index() as int), '/').last()),
                normal == closed_components_are_normal(s.take(it.index() as int)),
        {
            let ghost read = s.take(it.index() as int);
            let ghost pieces = text::split(read, '/');
            proof {
                assert(s.take(it.index() + 1) =~= read.push(c));
                text::lemma_split_push(read, c, '/');
                lemma_closed_components_push(read, c);
                lemma_progress_push(pieces.last(), c);
            }
            if c == '/' {
                normal = match progress {
                    ComponentProgress::Name => normal,
                    _ => false,
                };
                progress = ComponentProgress::Empty;
            } else {
                progress = match progress {
                    ComponentProgress::Empty if c == '.' => ComponentProgress::Dot,
                    ComponentProgress::Dot if c == '.' => ComponentProgress::DotDot,
                    _ => ComponentProgress::Name,
                };
            }
        }
        assert(s.take(s.len() as int) =~= s);
        let whole = match progress {
            ComponentProgress::Name => normal,
            _ => text.is_empty(),
        };
        proof {
            lemma_normal_by_closed_components(s);
        }
        if whole {
            Ok(RelPath { text: text.to_owned() })
        } else {
            Err(InvalidRelPath)
        }
    }

    /// The path as text, with `/` between the components.
    pub fn as_unix_str(&self) -> (text: &str)
        ensures
            text@ == self@,
            is_normal(self@),
    {
        proof {
            use_type_invariant(self);
        }
        self.text.as_str()
    }

    /// Whether this is the root.
    pub fn is_empty(&self) -> (empty: bool)
        ensures
            empty == (self@.len() == 0),
    {
        self.text.as_str().is_empty()
    }

    /// Whether this path is `directory` or lies somewhere below it.
    pub fn starts_with(&self, directory: &RelPath) -> (under: bool)
        ensures
            under == lies_under(self@, directory@),
    {
        let ghost p = self@;
        let ghost d = directory@;
        if directory.is_empty() {
            return true;
        }
        let mut ours = self.text.as_str().chars();
        let mut theirs = directory.text.as_str().chars();
        let ghost mut i: int = 0;
        assert(p.skip(0) =~= p && d.skip(0) =~= d);
        loop
            invariant
                p == self@,
                d == directory@,
                d.len() > 0,
                0 <= i <= p.len(),
                i <= d.len(),
                p.take(i) == d.take(i),
                IteratorSpec::remaining(&ours) == p.skip(i),
                IteratorSpec::remaining(&theirs) == d.skip(i),
            decreases p.len() - i,
        {
            match theirs.next() {
                None => {
                    assert(i == d.len());
                    assert(d.take(i) =~= d);
                    return match ours.next() {
                        None => true,
                        Some(c) => c == '/',
                    };
                },
                Some(wanted) => {
                    assert(wanted == d[i]);
                    match ours.next() {
                        Some(c) if c == wanted => {
                            proof {
                                assert(c == p[i]);
                                assert(p.take(i + 1) =~= p.take(i).push(c));
                                assert(d.take(i + 1) =~= d.take(i).push(c));
                                assert(p.skip(i).drop_first() =~= p.skip(i + 1));
                                assert(d.skip(i).drop_first() =~= d.skip(i + 1));
                                i = i + 1;
                            }
                        },
                        _ => {
                            proof {
                                if lies_under(p, d) {
                                    assert(p.take(d.len() as int)[i] == d[i]);
                                }
                            }
                            return false;
                        },
                    }
                },
            }
        }
    }

    /// The components, from the root down.
    pub fn components(&self) -> (parts: Vec<&str>)
        ensures
            parts@.len() == components(self@).len(),
            forall|i: int|
                0 <= i < parts@.len() ==> (#[trigger] parts@[i])@ == components(self@)[i],
    {
        let ghost s = self@;
        let mut parts: Vec<&str> = Vec::new();
        if self.is_empty() {
            return parts;
        }
        let text = self.text.as_str();
        let len: usize = text.unicode_len();
        let mut at: usize = 0;
        let mut start: usize = 0;
        assert(s.take(0) =~= Seq::<char>::empty());
        assert(s.subrange(0, 0) =~= Seq::<char>::empty());
        for c in it: text.chars()
            invariant
                s == text@,
                it.seq() == s,
                len == s.len(),
                at == it.index(),
                start <= at <= len,
                text::split(s.take(at as int), '/').len() == parts@.len() + 1,
                text::split(s.take(at as int), '/').last() == s.subrange(start as int, at as int),
                forall|i: int|
                    0 <= i < parts@.len() ==> (#[trigger] parts@[i])@ == text::split(
                        s.take(at as int),
                        '/',
                    )[i],
        {
            proof {
                assert(s.take(at + 1) =~= s.take(at as int).push(c));
                text::lemma_split_push(s.take(at as int), c, '/');
            }
            if c == '/' {
                parts.push(text.substring_char(start, at));
                start = at + 1;
                assert(s.subrange(at + 1, at + 1) =~= Seq::<char>::empty());
            } else {
                assert(s.subrange(start as int, at + 1) =~= s.subrange(
                    start as int,
                    at as int,
                ).push(c));
            }
            at = at + 1;
        }
        assert(s.take(s.len() as int) =~= s);
        parts.push(text.substring_char(start, len));
        parts
    }

    /// What follows the last dot of the last component, where that dot is not
    /// the component's first character.
    pub fn extension(&self) -> (extension: Option<&str>)
        ensures
            extension is Some <==> extension_of(self@) is Some,
            extension matches Some(text) ==> extension_of(self@) == Some(text@),
    {
        let ghost s = self@;
        let text = self.text.as_str();
        let len: usize = text.unicode_len();
        let mut at: usize = 0;
        let mut name_start: usize = 0;
        let mut dot: Option<usize> = None;
        assert(s.take(0) =~= Seq::<char>::empty());
        assert(s.subrange(0, 0) =~= Seq::<char>::empty());
        for c in it: text.chars()
            invariant
                s == text@,
                it.seq() == s,
                len == s.len(),
                at == it.index(),
                name_start <= at <= len,
                text::split(s.take(at as int), '/').len() > 0,
                text::split(s.take(at as int), '/').last() == s.subrange(
                    name_start as int,
                    at as int,
                ),
                match dot {
                    Some(d) => name_start <= d < at && s[d as int] == '.' && forall|j: int|
                        d < j < at ==> s[j] != '.',
                    None => forall|j: int| name_start <= j < at ==> s[j] != '.',
                },
        {
            let ghost read = s.take(at as int);
            proof {
                assert(s.take(at + 1) =~= read.push(c));
                text::lemma_split_push(read, c, '/');
            }
            if c == '/' {
                name_start = at + 1;
                dot = None;
                assert(s.subrange(at + 1, at + 1) =~= Seq::<char>::empty());
            } else {
                if c == '.' {
                    dot = Some(at);
                }
                assert(s.subrange(name_start as int, at + 1) =~= s.subrange(
                    name_start as int,
                    at as int,
                ).push(c));
            }
            at = at + 1;
        }
        assert(s.take(s.len() as int) =~= s);
        let ghost name = s.subrange(name_start as int, s.len() as int);
        proof {
            name.index_of_last_ensures('.');
            if let Some(d) = dot {
                assert(name[d - name_start] == '.');
                let found = name.index_of_last('.').unwrap();
                assert(s[found + name_start] == '.');
                assert(found == d - name_start);
                assert(name.skip(found + 1) =~= s.subrange(d + 1, s.len() as int));
            } else if name.contains('.') {
                let found = name.index_of_last('.').unwrap();
                assert(s[found + name_start] == '.');
            }
        }
        match dot {
            Some(d) if d > name_start => Some(text.substring_char(d + 1, len)),
            _ => None,
        }
    }
}

/// Every component but the last names an entry.
spec fn closed_components_are_normal(s: Seq<char>) -> bool {
    forall|i: int|
        0 <= i < text::split(s, '/').len() - 1 ==> names_entry(#[trigger] text::split(s, '/')[i])
}

proof fn lemma_closed_components_push(s: Seq<char>, c: char)
    ensures
        closed_components_are_normal(s.push(c)) == (closed_components_are_normal(s) && (c == '/'
            ==> names_entry(text::split(s, '/').last()))),
{
    text::lemma_split_push(s, c, '/');
    let before = text::split(s, '/');
    let after = text::split(s.push(c), '/');
    if closed_components_are_normal(s.push(c)) {
        assert forall|i: int| 0 <= i < before.len() - 1 implies names_entry(
            #[trigger] before[i],
        ) by {
            assert(after[i] == before[i]);
        }
        if c == '/' {
            assert(after[before.len() - 1] == before.last());
        }
    }
    if closed_components_are_normal(s) && (c == '/' ==> names_entry(before.last())) {
        assert forall|i: int| 0 <= i < after.len() - 1 implies names_entry(#[trigger] after[i]) by {
            assert(after[i] == before[i]);
        }
    }
}

proof fn lemma_progress_push(component: Seq<char>, c: char)
    ensures
        progress_of(component.push(c)) == (match progress_of(component) {
            ComponentProgress::Empty if c == '.' => ComponentProgress::Dot,
            ComponentProgress::Dot if c == '.' => ComponentProgress::DotDot,
            _ => ComponentProgress::Name,
        }),
        names_entry(component) == (progress_of(component) is Name),
{
    let longer = component.push(c);
    assert(longer.drop_last() =~= component);
    assert(seq!['.', '.'].drop_last() =~= seq!['.']);
    assert(seq!['.'].drop_last() =~= Seq::<char>::empty());
    assert(Seq::<char>::empty().push('.') =~= seq!['.']);
    assert(seq!['.'].push('.') =~= seq!['.', '.']);
    if component.len() == 0 {
        assert(component =~= Seq::<char>::empty());
    }
    assert(longer.last() == c);
    assert(seq!['.', '.'].last() == '.');
}

proof fn lemma_normal_by_closed_components(s: Seq<char>)
    ensures
        is_normal(s) == (s.len() == 0 || (closed_components_are_normal(s) && names_entry(
            text::split(s, '/').last(),
        ))),
{
    text::lemma_split_nonempty(s, '/');
    let pieces = text::split(s, '/');
    if s.len() > 0 {
        if is_normal(s) {
            assert(names_entry(components(s)[pieces.len() - 1]));
            assert forall|i: int| 0 <= i < pieces.len() - 1 implies names_entry(
                #[trigger] pieces[i],
            ) by {
                assert(names_entry(components(s)[i]));
            }
        }
    }
}

/// Ranks follow the order of characters, with the separator first.
proof fn lemma_rank(a: char, b: char)
    ensures
        rank(a) == rank(b) <==> a == b,
        rank(a) < rank(b) <==> b != '/' && (a == '/' || (a as int) < (b as int)),
{
}

/// No two paths have the same ranks.
proof fn lemma_ranks_injective(a: Seq<char>, b: Seq<char>)
    requires
        ranks(a) == ranks(b),
    ensures
        a == b,
{
    assert(ranks(a).len() == a.len() && ranks(b).len() == b.len());
    assert forall|i: int| 0 <= i < a.len() implies a[i] == b[i] by {
        assert(ranks(a)[i] == rank(a[i]) && ranks(b)[i] == rank(b[i]));
        lemma_rank(a[i], b[i]);
    }
    assert(a =~= b);
}

/// What lies below something below a directory lies below the directory.
pub proof fn lemma_under_transitive(path: Seq<char>, inner: Seq<char>, outer: Seq<char>)
    requires
        lies_under(path, inner),
        lies_under(inner, outer),
    ensures
        lies_under(path, outer),
{
    if outer.len() > 0 {
        let len = outer.len() as int;
        assert forall|i: int| 0 <= i < len implies path[i] == outer[i] by {
            assert(path.take(inner.len() as int)[i] == inner[i]);
            assert(inner.take(len)[i] == outer[i]);
        }
        assert(path.take(len) =~= outer);
        if outer.len() < inner.len() {
            assert(path.take(inner.len() as int)[len] == inner[len]);
        }
    }
}

/// Nothing at or below a directory comes before it.
pub proof fn lemma_under_not_before(path: Seq<char>, directory: Seq<char>)
    requires
        lies_under(path, directory),
    ensures
        !path_before(path, directory),
{
    if path_before(path, directory) {
        let i = choose|i: int| #[trigger]
            order::lex_before_at(ranks(path), ranks(directory), i);
        assert(i < directory.len());
        assert(path.take(directory.len() as int)[i] == directory[i]);
        assert(ranks(path)[i] == rank(path[i]) && ranks(directory)[i] == rank(directory[i]));
    }
}

/// What lies between a directory and something below it, in the order of
/// paths, lies below the directory too.
pub proof fn lemma_under_contiguous(directory: Seq<char>, path: Seq<char>, later: Seq<char>)
    requires
        !path_before(path, directory),
        path_before(path, later),
        lies_under(later, directory),
    ensures
        lies_under(path, directory),
{
    if directory.len() > 0 {
        let d = ranks(directory);
        let p = ranks(path);
        let q = ranks(later);
        let len = directory.len() as int;
        assert forall|k: int| 0 <= k < len implies q[k] == d[k] by {
            assert(later.take(len)[k] == directory[k]);
        }
        let j = choose|j: int| #[trigger] order::lex_before_at(p, q, j);
        order::lemma_lex_total(p, d);
        if p == d {
            lemma_ranks_injective(path, directory);
            assert(path.take(len) =~= directory);
        } else {
            let i = choose|i: int| #[trigger] order::lex_before_at(d, p, i);
            if i < len {
                assert(d[i] < p[i]);
                assert(q[i] == d[i]);
                if j < i {
                    assert(p[j] == d[j] && q[j] == d[j]);
                }
                assert(false);
            }
            assert forall|k: int| 0 <= k < len implies path[k] == directory[k] by {
                assert(p[k] == d[k]);
                assert(p[k] == rank(path[k]) && d[k] == rank(directory[k]));
                lemma_rank(path[k], directory[k]);
            }
            assert(path.take(len) =~= directory);
            if j < len {
                assert(p[j] == d[j] && q[j] == d[j]);
                assert(false);
            }
            assert(later.len() > len);
            assert(q[len] == rank(later[len]) && p[len] == rank(path[len]));
            lemma_rank(path[len], later[len]);
            lemma_rank(later[len], path[len]);
        }
    }
}

impl Key for RelPath {
    type Model = Seq<char>;

    open spec fn model(&self) -> Seq<char> {
        self@
    }

    open spec fn before(a: Seq<char>, b: Seq<char>) -> bool {
        path_before(a, b)
    }

    proof fn lemma_irreflexive(a: Seq<char>) {
        order::lemma_lex_irreflexive(ranks(a));
    }

    proof fn lemma_transitive(a: Seq<char>, b: Seq<char>, c: Seq<char>) {
        order::lemma_lex_transitive(ranks(a), ranks(b), ranks(c));
    }

    proof fn lemma_total(a: Seq<char>, b: Seq<char>) {
        order::lemma_lex_total(ranks(a), ranks(b));
        if ranks(a) == ranks(b) {
            lemma_ranks_injective(a, b);
        }
    }

    fn compare(&self, other: &RelPath) -> (standing: Precedence) {
        let ghost p = self@;
        let ghost q = other@;
        let mut ours = self.text.as_str().chars();
        let mut theirs = other.text.as_str().chars();
        let ghost mut i: int = 0;
        assert(p.skip(0) =~= p && q.skip(0) =~= q);
        loop
            invariant
                p == self@,
                q == other@,
                order::agree_until(ranks(p), ranks(q), i),
                IteratorSpec::remaining(&ours) == p.skip(i),
                IteratorSpec::remaining(&theirs) == q.skip(i),
            decreases p.len() - i,
        {
            match (ours.next(), theirs.next()) {
                (None, None) => {
                    proof {
                        assert(ranks(p) =~= ranks(q));
                        lemma_ranks_injective(p, q);
                    }
                    return Precedence::Same;
                },
                (None, Some(_)) => {
                    assert(order::lex_before_at(ranks(p), ranks(q), i));
                    return Precedence::Before;
                },
                (Some(_), None) => {
                    assert(order::lex_before_at(ranks(q), ranks(p), i));
                    return Precedence::After;
                },
                (Some(a), Some(b)) => {
                    assert(a == p[i] && b == q[i]);
                    if a != b {
                        proof {
                            lemma_rank(a, b);
                            lemma_rank(b, a);
                        }
                        assert(ranks(p)[i] == rank(a) && ranks(q)[i] == rank(b));
                        if a == '/' || (b != '/' && a < b) {
                            assert(order::lex_before_at(ranks(p), ranks(q), i));
                            return Precedence::Before;
                        } else {
                            assert(order::lex_before_at(ranks(q), ranks(p), i));
                            return Precedence::After;
                        }
                    }
                    proof {
                        assert(p.skip(i).drop_first() =~= p.skip(i + 1));
                        assert(q.skip(i).drop_first() =~= q.skip(i + 1));
                        i = i + 1;
                    }
                },
            }
        }
    }

    fn duplicate(&self) -> (copy: RelPath) {
        self.clone()
    }
}

} // verus!
