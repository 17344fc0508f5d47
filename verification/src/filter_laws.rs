//! What holds of any filter.

use crate::filter;
use crate::filter::LineCountFilter;
use crate::path_laws;
use crate::rel_path;
use crate::text;
use vstd::prelude::*;

verus! {

/// Without any extensions to include or exclude, every path gets through.
pub proof fn law_empty_filter_lets_everything_through(path: Seq<char>)
    ensures
        filter::lets_through(
            filter::extensions_in(Seq::empty()),
            filter::extensions_in(Seq::empty()),
            path,
        ),
{
    let none = filter::extensions_in(Seq::empty());
    let pieces = text::split(Seq::<char>::empty(), ',');
    assert forall|extension: Seq<char>| !none.contains(extension) by {
        if none.contains(extension) {
            let i = choose|i: int|
                0 <= i < pieces.len() && extension == filter::extension_in(#[trigger] pieces[i]);
            assert(pieces[i] =~= Seq::<char>::empty());
            assert(extension.len() == 0);
        }
    }
    assert(none =~= Set::<Seq<char>>::empty());
}

/// What is excluded is kept out, whatever is included.
pub proof fn law_exclusion_wins(
    included: Set<Seq<char>>,
    excluded: Set<Seq<char>>,
    path: Seq<char>,
)
    requires
        rel_path::extension_of(path) matches Some(name) && filter::holds_extension(excluded, name),
    ensures
        !filter::lets_through(included, excluded, path),
{
}

/// A path without an extension gets through exactly where nothing is included by
/// name.
pub proof fn law_paths_without_extension(
    included: Set<Seq<char>>,
    excluded: Set<Seq<char>>,
    path: Seq<char>,
)
    requires
        rel_path::extension_of(path) is None,
    ensures
        filter::lets_through(included, excluded, path) <==> included == Set::<Seq<char>>::empty(),
{
}

/// Including more lets more through, as long as something is included; excluding
/// more lets less through.
pub proof fn law_filters_are_monotone(
    included: Set<Seq<char>>,
    more: Set<Seq<char>>,
    excluded: Set<Seq<char>>,
    less: Set<Seq<char>>,
    path: Seq<char>,
)
    requires
        included != Set::<Seq<char>>::empty(),
        included.subset_of(more),
        less.subset_of(excluded),
        filter::lets_through(included, excluded, path),
    ensures
        filter::lets_through(more, less, path),
{
}

proof fn lemma_lower_is_lower(c: char)
    ensures
        filter::ascii_lower(filter::ascii_lower(c)) == filter::ascii_lower(c),
{
    if 'A' <= c && c <= 'Z' {
        assert(97 <= c as u8 + 32 <= 122);
    }
}

proof fn lemma_lowercase_is_lowercase(s: Seq<char>)
    ensures
        filter::ascii_lowercase(filter::ascii_lowercase(s)) == filter::ascii_lowercase(s),
{
    let lower = filter::ascii_lowercase(s);
    assert forall|i: int| 0 <= i < lower.len() implies filter::ascii_lower(lower[i])
        == lower[i] by {
        lemma_lower_is_lower(s[i]);
    }
    assert(filter::ascii_lowercase(lower) =~= lower);
}

/// The case of ASCII letters does not matter, neither in a list of extensions
/// nor in a path: an extension is held exactly where its lower-case form is.
pub proof fn law_case_does_not_matter(list: Seq<char>, extension: Seq<char>)
    ensures
        filter::holds_extension(filter::extensions_in(list), extension)
            <==> filter::extensions_in(list).contains(filter::ascii_lowercase(extension)),
        filter::extensions_in(list).contains(extension) ==> filter::ascii_lowercase(extension)
            == extension,
{
    let extensions = filter::extensions_in(list);
    if extensions.contains(extension) {
        let pieces = text::split(list, ',');
        let i = choose|i: int|
            0 <= i < pieces.len() && extension == filter::extension_in(#[trigger] pieces[i]);
        lemma_lowercase_is_lowercase(
            filter::without_leading_dots(filter::trim_end(filter::trim_start(pieces[i]))),
        );
    }
}

/// The extension alone decides whether a path gets through, wherever the file
/// lies. One that is held by the included extensions and not by the excluded
/// ones gets through; with nothing to include, all that is not excluded does;
/// and nothing else.
pub proof fn law_extension_decides(
    included: Set<Seq<char>>,
    excluded: Set<Seq<char>>,
    path: Seq<char>,
    name: Seq<char>,
)
    requires
        rel_path::extension_of(path) == Some(name),
    ensures
        filter::lets_through(included, excluded, path) <==> {
            &&& !excluded.contains(name) && !excluded.contains(filter::ascii_lowercase(name))
            &&& {
                ||| included.contains(name)
                ||| included.contains(filter::ascii_lowercase(name))
                ||| forall|other: Seq<char>| !included.contains(other)
            }
        },
{
    if forall|other: Seq<char>| !included.contains(other) {
        assert(included =~= Set::<Seq<char>>::empty());
    }
}

/// Two paths with the same extension, or both without one, are let through alike.
pub proof fn law_same_extension_same_answer(
    included: Set<Seq<char>>,
    excluded: Set<Seq<char>>,
    one: Seq<char>,
    other: Seq<char>,
)
    requires
        rel_path::extension_of(one) == rel_path::extension_of(other),
    ensures
        filter::lets_through(included, excluded, one) == filter::lets_through(
            included,
            excluded,
            other,
        ),
{
}

/// Capital ASCII letters become small ones, and nothing else changes.
pub proof fn law_lower_case(s: Seq<char>)
    ensures
        filter::ascii_lowercase(s).len() == s.len(),
        forall|i: int|
            0 <= i < s.len() ==> (#[trigger] filter::ascii_lowercase(s)[i]) as int == (if 65
                <= s[i] as int <= 90 {
                s[i] as int + 32
            } else {
                s[i] as int
            }),
{
    assert forall|i: int| 0 <= i < s.len() implies (#[trigger] filter::ascii_lowercase(
        s,
    )[i]) as int == (if 65 <= s[i] as int <= 90 {
        s[i] as int + 32
    } else {
        s[i] as int
    }) by {
        lemma_lower(s[i]);
    }
}

proof fn lemma_lower(c: char)
    ensures
        filter::ascii_lower(c) as int == (if 65 <= c as int <= 90 {
            c as int + 32
        } else {
            c as int
        }),
{
}

/// A list asks for what its pieces ask for: cut in two at a comma, it asks for
/// what either part does.
pub proof fn law_lists_are_cut_at_commas(a: Seq<char>, b: Seq<char>, extension: Seq<char>)
    ensures
        filter::extensions_in(a.push(',') + b).contains(extension) <==> filter::extensions_in(
            a,
        ).contains(extension) || filter::extensions_in(b).contains(extension),
        !a.contains(',') ==> (filter::extensions_in(a).contains(extension) <==> extension.len() > 0
            && extension == filter::extension_in(a)),
{
    path_laws::law_text_is_split_at_separators(a, b, ',');
    let left = text::split(a, ',');
    let right = text::split(b, ',');
    let both = left + right;
    if filter::extensions_in(a).contains(extension) {
        let i = choose|i: int|
            0 <= i < left.len() && extension == filter::extension_in(#[trigger] left[i]);
        assert(both[i] == left[i]);
    }
    if filter::extensions_in(b).contains(extension) {
        let i = choose|i: int|
            0 <= i < right.len() && extension == filter::extension_in(#[trigger] right[i]);
        assert(both[left.len() + i] == right[i]);
    }
    if filter::extensions_in(a.push(',') + b).contains(extension) {
        let i = choose|i: int|
            0 <= i < both.len() && extension == filter::extension_in(#[trigger] both[i]);
        if i < left.len() {
            assert(both[i] == left[i]);
        } else {
            assert(both[i] == right[i - left.len()]);
        }
    }
    if !a.contains(',') && extension.len() > 0 && extension == filter::extension_in(a) {
        assert(left[0] == a);
    }
}

/// All of the characters are white space.
pub open spec fn is_blank(s: Seq<char>) -> bool {
    forall|i: int| 0 <= i < s.len() ==> filter::is_white_space(#[trigger] s[i])
}

/// White space is taken off both ends of a piece, then dots off its start, and
/// what is left is put into lower case.
pub proof fn law_what_a_piece_asks_for(
    before: Seq<char>,
    dots: Seq<char>,
    name: Seq<char>,
    after: Seq<char>,
)
    requires
        is_blank(before),
        is_blank(after),
        forall|i: int| 0 <= i < dots.len() ==> #[trigger] dots[i] == '.',
        name.len() > 0 ==> {
            &&& name[0] != '.'
            &&& dots.len() > 0 || !filter::is_white_space(name[0])
            &&& !filter::is_white_space(name.last())
        },
    ensures
        filter::extension_in(before + dots + name + after) == filter::ascii_lowercase(name),
{
    lemma_not_white();
    let core = dots + name;
    assert(before + dots + name + after =~= before + (core + after));
    lemma_trim_start(before, core + after);
    if core.len() == 0 {
        assert(core + after =~= after);
        lemma_trim_start(after, Seq::empty());
        assert(after + Seq::<char>::empty() =~= after);
        assert(core =~= Seq::<char>::empty());
    } else {
        assert((core + after)[0] == core[0]);
        lemma_trim_start(Seq::empty(), core + after);
        assert(Seq::<char>::empty() + (core + after) =~= core + after);
    }
    assert(filter::trim_start(before + (core + after)) == (if core.len() == 0 {
        core
    } else {
        core + after
    }));
    if core.len() > 0 {
        if name.len() > 0 {
            assert(core.last() == name.last());
        } else {
            assert(core =~= dots);
            assert(core.last() == dots[dots.len() - 1]);
        }
        lemma_trim_end(core, after);
    }
    lemma_without_dots(dots, name);
    if core.len() == 0 {
        assert(name =~= core);
    }
}

proof fn lemma_not_white()
    ensures
        !filter::is_white_space('.'),
{
}

proof fn lemma_trim_start(blank: Seq<char>, s: Seq<char>)
    requires
        is_blank(blank),
    ensures
        filter::trim_start(blank + s) == filter::trim_start(s),
        s.len() == 0 || !filter::is_white_space(s[0]) ==> filter::trim_start(blank + s) == s,
    decreases blank.len(),
{
    if blank.len() > 0 {
        let rest = blank.skip(1);
        assert forall|i: int| 0 <= i < rest.len() implies filter::is_white_space(
            #[trigger] rest[i],
        ) by {
            assert(rest[i] == blank[i + 1]);
        }
        lemma_trim_start(rest, s);
        assert((blank + s)[0] == blank[0]);
        assert((blank + s).skip(1) =~= rest + s);
    } else {
        assert(blank + s =~= s);
    }
}

proof fn lemma_trim_end(s: Seq<char>, blank: Seq<char>)
    requires
        is_blank(blank),
        s.len() > 0,
        !filter::is_white_space(s.last()),
    ensures
        filter::trim_end(s + blank) == s,
    decreases blank.len(),
{
    if blank.len() > 0 {
        let rest = blank.drop_last();
        assert forall|i: int| 0 <= i < rest.len() implies filter::is_white_space(
            #[trigger] rest[i],
        ) by {
            assert(rest[i] == blank[i]);
        }
        lemma_trim_end(s, rest);
        assert((s + blank).last() == blank[blank.len() - 1]);
        assert((s + blank).drop_last() =~= s + rest);
    } else {
        assert(s + blank =~= s);
    }
}

proof fn lemma_without_dots(dots: Seq<char>, name: Seq<char>)
    requires
        forall|i: int| 0 <= i < dots.len() ==> #[trigger] dots[i] == '.',
        name.len() > 0 ==> name[0] != '.',
    ensures
        filter::without_leading_dots(dots + name) == name,
    decreases dots.len(),
{
    if dots.len() > 0 {
        let rest = dots.skip(1);
        assert forall|i: int| 0 <= i < rest.len() implies #[trigger] rest[i] == '.' by {
            assert(rest[i] == dots[i + 1]);
        }
        lemma_without_dots(rest, name);
        assert((dots + name)[0] == dots[0]);
        assert((dots + name).skip(1) =~= rest + name);
    } else {
        assert(dots + name =~= name);
    }
}

/// White space is what Unicode takes for it: the ASCII controls from tab to
/// carriage return and the blank, and the further spaces and separators.
pub proof fn law_white_space(c: char)
    ensures
        filter::is_white_space(c) <==> set![
            0x09int,
            0x0a,
            0x0b,
            0x0c,
            0x0d,
            0x20,
            0x85,
            0xa0,
            0x1680,
            0x2000,
            0x2001,
            0x2002,
            0x2003,
            0x2004,
            0x2005,
            0x2006,
            0x2007,
            0x2008,
            0x2009,
            0x200a,
            0x2028,
            0x2029,
            0x202f,
            0x205f,
            0x3000,
        ].contains(c as int),
{
}

/// A file whose extension stands in the list of those to include, and not in the
/// other list, gets through, wherever it lies and in whatever case either is
/// written; one whose extension stands in the list of those to exclude does not.
pub proof fn law_listed_extensions_get_through(
    ahead: Seq<char>,
    listed: Seq<char>,
    behind: Seq<char>,
    excluding: Seq<char>,
    directory: Seq<char>,
    stem: Seq<char>,
    extension: Seq<char>,
)
    requires
        listed.len() > 0,
        !listed.contains(','),
        listed[0] != '.',
        !filter::is_white_space(listed[0]),
        !filter::is_white_space(listed.last()),
        filter::ascii_lowercase(listed) == filter::ascii_lowercase(extension),
        stem.len() > 0,
        !stem.contains('/'),
        !extension.contains('/'),
        !extension.contains('.'),
    ensures
        !filter::extensions_in(excluding).contains(filter::ascii_lowercase(extension))
            ==> filter::lets_through(
            filter::extensions_in(ahead.push(',') + (listed.push(',') + behind)),
            filter::extensions_in(excluding),
            directory.push('/') + (stem.push('.') + extension),
        ),
        !filter::lets_through(
            filter::extensions_in(excluding),
            filter::extensions_in(ahead.push(',') + (listed.push(',') + behind)),
            directory.push('/') + (stem.push('.') + extension),
        ),
{
    let lower = filter::ascii_lowercase(extension);
    let list = ahead.push(',') + (listed.push(',') + behind);
    let empty = Seq::<char>::empty();
    law_what_a_piece_asks_for(empty, empty, listed, empty);
    assert(empty + empty + listed + empty =~= listed);
    assert(lower.len() == listed.len()) by {
        assert(filter::ascii_lowercase(listed).len() == listed.len());
    }
    law_lists_are_cut_at_commas(listed, behind, lower);
    law_lists_are_cut_at_commas(ahead, listed.push(',') + behind, lower);
    path_laws::law_extension_follows_the_last_dot(directory, stem, extension);
    law_case_does_not_matter(excluding, extension);
    law_extension_decides(
        filter::extensions_in(list),
        filter::extensions_in(excluding),
        directory.push('/') + (stem.push('.') + extension),
        extension,
    );
    law_extension_decides(
        filter::extensions_in(excluding),
        filter::extensions_in(list),
        directory.push('/') + (stem.push('.') + extension),
        extension,
    );
}

/// Two filters are the same exactly if they name the same extensions to include
/// and the same to exclude. The same filters let the same paths through.
pub proof fn law_same_filters(a: LineCountFilter, b: LineCountFilter)
    ensures
        vstd::std_specs::cmp::PartialEqSpec::eq_spec(&a, &b) <==> forall|extension: Seq<char>|
            #![trigger a.included().contains(extension)]
            #![trigger a.excluded().contains(extension)]
            a.included().contains(extension) == b.included().contains(extension)
                && a.excluded().contains(extension) == b.excluded().contains(extension),
        vstd::std_specs::cmp::PartialEqSpec::eq_spec(&a, &b) ==> forall|path: Seq<char>| #[trigger]
            a.admits(path) == b.admits(path),
{
    if forall|extension: Seq<char>|
        #![trigger a.included().contains(extension)]
        #![trigger a.excluded().contains(extension)]
        a.included().contains(extension) == b.included().contains(extension)
            && a.excluded().contains(extension) == b.excluded().contains(extension) {
        assert(a.included() =~= b.included());
        assert(a.excluded() =~= b.excluded());
    }
}

} // verus!
