//! What paths and pieces of text are.

use crate::order;
use crate::order::Key;
use crate::queue::PendingKey;
use crate::rel_path;
use crate::rel_path::RelPath;
use crate::store::WorktreeRoot;
use crate::text;
use crate::worktree;
use crate::worktree::{PathStyle, WorktreeId};
use vstd::prelude::*;

verus! {

/// Text is split at every separator and nowhere else: what stands on both sides
/// of one is split by itself, and what holds none is a single piece.
pub proof fn law_text_is_split_at_separators(a: Seq<char>, b: Seq<char>, separator: char)
    ensures
        text::split(a.push(separator) + b, separator) == text::split(a, separator) + text::split(
            b,
            separator,
        ),
        !a.contains(separator) ==> text::split(a, separator) == seq![a],
    decreases a.len() + b.len(),
{
    if b.len() == 0 {
        assert(a.push(separator) + b =~= a.push(separator));
        text::lemma_split_push(a, separator, separator);
        assert(text::split(a, separator) + seq![Seq::<char>::empty()] =~= text::split(
            a,
            separator,
        ).push(Seq::<char>::empty()));
    } else {
        let front = b.drop_last();
        law_text_is_split_at_separators(a, front, separator);
        assert(a.push(separator) + b =~= (a.push(separator) + front).push(b.last()));
        assert(b =~= front.push(b.last()));
        text::lemma_split_push(a.push(separator) + front, b.last(), separator);
        text::lemma_split_push(front, b.last(), separator);
        let left = text::split(a, separator);
        let right = text::split(front, separator);
        if b.last() == separator {
            assert((left + right).push(Seq::<char>::empty()) =~= left + right.push(
                Seq::<char>::empty(),
            ));
        } else {
            assert((left + right).drop_last().push((left + right).last().push(b.last())) =~= left
                + right.drop_last().push(right.last().push(b.last())));
        }
    }
    lemma_one_piece(a, separator);
}

proof fn lemma_one_piece(a: Seq<char>, separator: char)
    ensures
        !a.contains(separator) ==> text::split(a, separator) == seq![a],
    decreases a.len(),
{
    if a.len() > 0 && !a.contains(separator) {
        let front = a.drop_last();
        assert forall|i: int| 0 <= i < front.len() implies front[i] != separator by {
            assert(a[i] == front[i]);
            assert(a.contains(a[i]));
        }
        lemma_one_piece(front, separator);
        assert(a.contains(a[a.len() - 1]));
        assert(front.push(a.last()) =~= a);
        assert(text::split(a, separator) =~= seq![a]);
    } else if a.len() == 0 {
        assert(a =~= Seq::<char>::empty());
    }
}

/// The components of a path are what stands between its slashes; the empty path
/// has none.
pub proof fn law_components_stand_between_slashes(name: Seq<char>, rest: Seq<char>)
    requires
        !name.contains('/'),
    ensures
        rel_path::components(Seq::empty()).len() == 0,
        name.len() > 0 ==> rel_path::components(name) == seq![name],
        rest.len() > 0 ==> rel_path::components(name.push('/') + rest) == seq![name]
            + rel_path::components(rest),
{
    law_text_is_split_at_separators(name, rest, '/');
}

/// A path is in normal form exactly if it is empty, or each of its components
/// names an entry: none is empty, a dot or two dots.
pub proof fn law_normal_form(name: Seq<char>, rest: Seq<char>)
    requires
        !name.contains('/'),
    ensures
        rel_path::is_normal(Seq::empty()),
        name.len() > 0 ==> (rel_path::is_normal(name) <==> name != seq!['.'] && name != seq![
            '.',
            '.',
        ]),
        rel_path::is_normal(name.push('/') + rest) <==> {
            &&& name.len() > 0
            &&& name != seq!['.']
            &&& name != seq!['.', '.']
            &&& rest.len() > 0
            &&& rel_path::is_normal(rest)
        },
{
    law_text_is_split_at_separators(name, rest, '/');
    let whole = name.push('/') + rest;
    let parts = text::split(rest, '/');
    assert(rel_path::components(whole) == seq![name] + parts);
    text::lemma_split_nonempty(rest, '/');
    if rel_path::is_normal(whole) {
        assert(rel_path::components(whole)[0] == name);
        assert forall|i: int| 0 <= i < parts.len() implies rel_path::names_entry(
            #[trigger] parts[i],
        ) by {
            assert(rel_path::components(whole)[i + 1] == parts[i]);
        }
        assert(rel_path::names_entry(parts[0]));
    }
    if rest.len() > 0 && rel_path::is_normal(rest) && rel_path::names_entry(name) {
        assert forall|i: int| 0 <= i < rel_path::components(whole).len() implies rel_path::names_entry(
            #[trigger] rel_path::components(whole)[i],
        ) by {
            if i > 0 {
                assert(rel_path::components(whole)[i] == rel_path::components(rest)[i - 1]);
            }
        }
    }
    if name.len() > 0 {
        assert(rel_path::components(name) == seq![name]);
        if rel_path::is_normal(name) {
            assert(rel_path::names_entry(rel_path::components(name)[0]));
        }
    }
}

/// A path lies under a directory exactly if it is the directory, or the
/// directory followed by a slash and anything more. All lies under the root.
pub proof fn law_what_lies_under_a_directory(path: Seq<char>, directory: Seq<char>)
    ensures
        rel_path::lies_under(path, directory) <==> {
            ||| directory.len() == 0
            ||| path == directory
            ||| exists|rest: Seq<char>| path == #[trigger] (directory.push('/') + rest)
        },
{
    let len = directory.len() as int;
    if rel_path::lies_under(path, directory) && len > 0 {
        if path.len() == len {
            assert(path =~= path.take(len));
        } else {
            assert(path =~= directory.push('/') + path.skip(len + 1)) by {
                assert forall|i: int| 0 <= i < len implies path[i] == directory[i] by {
                    assert(path.take(len)[i] == path[i]);
                }
            }
        }
    }
    if exists|rest: Seq<char>| path == #[trigger] (directory.push('/') + rest) {
        let rest = choose|rest: Seq<char>| path == #[trigger] (directory.push('/') + rest);
        assert(path.take(len) =~= directory);
        assert(path[len] == '/');
    }
    if path == directory {
        assert(path.take(len) =~= directory);
    }
}

/// Of two paths that part at some character, the one with a slash there comes
/// first, and else the one with the smaller character. A path comes before all
/// that it is the beginning of.
pub proof fn law_order_of_paths(
    shared: Seq<char>,
    a: char,
    b: char,
    x: Seq<char>,
    y: Seq<char>,
)
    requires
        a != b,
    ensures
        rel_path::path_before(shared.push(a) + x, shared.push(b) + y) <==> b != '/' && (a == '/'
            || (a as int) < (b as int)),
        rel_path::path_before(shared, shared.push(a) + x),
        !rel_path::path_before(shared.push(a) + x, shared),
{
    let p = rel_path::ranks(shared.push(a) + x);
    let q = rel_path::ranks(shared.push(b) + y);
    let s = rel_path::ranks(shared);
    let len = shared.len() as int;
    assert(p[len] == rel_path::rank(a) && q[len] == rel_path::rank(b));
    assert forall|i: int| 0 <= i < len implies p[i] == s[i] && q[i] == s[i] by {
        assert((shared.push(a) + x)[i] == shared[i] && (shared.push(b) + y)[i] == shared[i]);
    }
    if b != '/' && (a == '/' || (a as int) < (b as int)) {
        assert(order::lex_before_at(p, q, len));
    }
    if order::lex_before(p, q) {
        let i = choose|i: int| #[trigger] order::lex_before_at(p, q, i);
        if i > len {
            assert(p[len] == q[len]);
        }
        assert(i == len);
    }
    assert(order::lex_before_at(s, p, len));
    if order::lex_before(p, s) {
        let i = choose|i: int| #[trigger] order::lex_before_at(p, s, i);
        assert(i < len);
        assert(p[i] == s[i]);
    }
}

/// Requests wait worktree by worktree, and by path within one.
pub proof fn law_order_of_requests(a: usize, b: usize, p: Seq<char>, q: Seq<char>)
    ensures
        a < b ==> PendingKey::before((a, p), (b, q)) && !PendingKey::before((b, q), (a, p)),
        PendingKey::before((a, p), (a, q)) <==> RelPath::before(p, q),
        RelPath::before(p, q) <==> rel_path::path_before(p, q),
        WorktreeId::before(a, b) <==> a < b,
{
}

/// Roots are told apart byte by byte.
pub proof fn law_order_of_roots(shared: Seq<u8>, a: u8, b: u8, x: Seq<u8>, y: Seq<u8>)
    ensures
        a < b ==> WorktreeRoot::before(shared.push(a) + x, shared.push(b) + y),
        WorktreeRoot::before(shared, shared.push(a) + x),
{
    let p = crate::store::byte_values(shared.push(a) + x);
    let q = crate::store::byte_values(shared.push(b) + y);
    let s = crate::store::byte_values(shared);
    let len = shared.len() as int;
    assert forall|i: int| 0 <= i < len implies p[i] == s[i] && q[i] == s[i] by {
        assert((shared.push(a) + x)[i] == shared[i] && (shared.push(b) + y)[i] == shared[i]);
    }
    assert(p[len] == a && q[len] == b);
    if a < b {
        assert(order::lex_before_at(p, q, len));
    }
    assert(order::lex_before_at(s, p, len));
}

/// The last component of a path is what follows its last slash.
proof fn lemma_last_component(directory: Seq<char>, name: Seq<char>)
    requires
        !name.contains('/'),
        name.len() > 0,
    ensures
        rel_path::components(name).last() == name,
        rel_path::components(directory.push('/') + name).last() == name,
{
    law_text_is_split_at_separators(directory, name, '/');
    lemma_one_piece(name, '/');
    assert(text::split(directory, '/') + seq![name] =~= text::split(directory, '/').push(name));
}

/// The extension of a file is what follows the last dot of its name, wherever the
/// file lies, as long as something stands before that dot.
pub proof fn law_extension_follows_the_last_dot(
    directory: Seq<char>,
    stem: Seq<char>,
    extension: Seq<char>,
)
    requires
        stem.len() > 0,
        !stem.contains('/'),
        !extension.contains('/'),
        !extension.contains('.'),
    ensures
        rel_path::extension_of(stem.push('.') + extension) == Some(extension),
        rel_path::extension_of(directory.push('/') + (stem.push('.') + extension)) == Some(
            extension,
        ),
{
    let name = stem.push('.') + extension;
    let dot = stem.len() as int;
    if name.contains('/') {
        let i = choose|i: int| 0 <= i < name.len() && name[i] == '/';
        if i < dot {
            assert(stem.contains(stem[i]));
        } else {
            assert(extension.contains(extension[i - dot - 1]));
        }
    }
    lemma_last_component(directory, name);
    assert(name[dot] == '.');
    assert(name.contains(name[dot]));
    name.index_of_last_ensures('.');
    let found = name.index_of_last('.')->0;
    if found > dot {
        assert(extension.contains(extension[found - dot - 1]));
    }
    assert(found == dot);
    assert(name.skip(dot + 1) =~= extension);
}

/// A name without a dot, or with none but its first character, has no extension,
/// wherever the file lies; nor has the root.
pub proof fn law_names_without_extension(directory: Seq<char>, name: Seq<char>)
    requires
        name.len() > 0,
        !name.contains('/'),
        forall|i: int| 0 < i < name.len() ==> name[i] != '.',
    ensures
        rel_path::extension_of(name) is None,
        rel_path::extension_of(directory.push('/') + name) is None,
        rel_path::extension_of(Seq::empty()) is None,
{
    lemma_last_component(directory, name);
    name.index_of_last_ensures('.');
}

/// An absolute path is the worktree's root followed by the components, with one
/// separator before each of them; a separator at the end of the root is not
/// doubled.
pub proof fn law_absolute_paths(
    base: Seq<char>,
    separator: char,
    part: Seq<char>,
    parts: Seq<Seq<char>>,
    more: Seq<Seq<char>>,
)
    ensures
        worktree::joined(base, separator, Seq::empty()) == base,
        worktree::joined(base.push(separator), separator, seq![part]) == base.push(separator)
            + part,
        base.len() == 0 || base.last() != separator ==> worktree::joined(
            base,
            separator,
            seq![part],
        ) == base.push(separator) + part,
        worktree::joined(base, separator, parts + more) == worktree::joined(
            worktree::joined(base, separator, parts),
            separator,
            more,
        ),
        worktree::separator_of(PathStyle::Unix) == '/',
        worktree::separator_of(PathStyle::Windows) == '\\',
    decreases more.len(),
{
    assert(seq![part].drop_last() =~= Seq::<Seq<char>>::empty());
    assert(worktree::joined(base, separator, seq![part].drop_last()) == base);
    assert(worktree::joined(base.push(separator), separator, seq![part].drop_last())
        == base.push(separator));
    if more.len() == 0 {
        assert(parts + more =~= parts);
    } else {
        law_absolute_paths(base, separator, part, parts, more.drop_last());
        assert((parts + more).drop_last() =~= parts + more.drop_last());
        assert((parts + more).last() == more.last());
    }
}

} // verus!
