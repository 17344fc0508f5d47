//! Which files are counted, by their extensions.

use crate::order;
use crate::order::{Key, Precedence};
use crate::ordered_map::OrderedMap;
use crate::rel_path;
use crate::rel_path::RelPath;
use crate::text;
use crate::text::chars_of;
use vstd::prelude::*;

verus! {

/// The characters with the Unicode property `White_Space`.
pub open spec fn is_white_space(c: char) -> bool {
    let code = c as int;
    ||| 0x09 <= code <= 0x0d
    ||| code == 0x20
    ||| code == 0x85
    ||| code == 0xa0
    ||| code == 0x1680
    ||| 0x2000 <= code <= 0x200a
    ||| code == 0x2028
    ||| code == 0x2029
    ||| code == 0x202f
    ||| code == 0x205f
    ||| code == 0x3000
}

/// `s` without the white space at its start.
pub open spec fn trim_start(s: Seq<char>) -> Seq<char>
    decreases s.len(),
{
    if s.len() > 0 && is_white_space(s[0]) {
        trim_start(s.skip(1))
    } else {
        s
    }
}

/// `s` without the white space at its end.
pub open spec fn trim_end(s: Seq<char>) -> Seq<char>
    decreases s.len(),
{
    if s.len() > 0 && is_white_space(s.last()) {
        trim_end(s.drop_last())
    } else {
        s
    }
}

/// `s` without the dots at its start.
pub open spec fn without_leading_dots(s: Seq<char>) -> Seq<char>
    decreases s.len(),
{
    if s.len() > 0 && s[0] == '.' {
        without_leading_dots(s.skip(1))
    } else {
        s
    }
}

/// The lower-case form of an ASCII capital; any other character itself.
pub open spec fn ascii_lower(c: char) -> char {
    if 'A' <= c && c <= 'Z' {
        (c as u8 + 32) as char
    } else {
        c
    }
}

pub open spec fn ascii_lowercase(s: Seq<char>) -> Seq<char> {
    Seq::new(s.len(), |i: int| ascii_lower(s[i]))
}

/// The extension that one piece of a list asks for: without surrounding white
/// space, without leading dots, in ASCII lower case.
pub open spec fn extension_in(piece: Seq<char>) -> Seq<char> {
    ascii_lowercase(without_leading_dots(trim_end(trim_start(piece))))
}

/// The extensions that the pieces of a list ask for. A piece without any asks
/// for none.
pub open spec fn extensions_of(pieces: Seq<Seq<char>>) -> Set<Seq<char>> {
    Set::new(
        |extension: Seq<char>|
            extension.len() > 0 && exists|i: int|
                0 <= i < pieces.len() && extension == extension_in(#[trigger] pieces[i]),
    )
}

/// The extensions that a comma-separated list asks for.
pub open spec fn extensions_in(list: Seq<char>) -> Set<Seq<char>> {
    extensions_of(text::split(list, ','))
}

/// Whether `extensions` holds `extension`, as it stands or in ASCII lower case.
pub open spec fn holds_extension(extensions: Set<Seq<char>>, extension: Seq<char>) -> bool {
    extensions.contains(extension) || extensions.contains(ascii_lowercase(extension))
}

/// Whether a filter lets a path through. A path that is excluded is kept out
/// even where it is included too.
pub open spec fn lets_through(
    included: Set<Seq<char>>,
    excluded: Set<Seq<char>>,
    path: Seq<char>,
) -> bool {
    let extension = rel_path::extension_of(path);
    &&& !(extension matches Some(name) && holds_extension(excluded, name))
    &&& included == Set::<Seq<char>>::empty() || (extension matches Some(name) && holds_extension(
        included,
        name,
    ))
}

fn is_white_space_char(c: char) -> (white: bool)
    ensures
        white == is_white_space(c),
{
    let code: u32 = c as u32;
    (0x09 <= code && code <= 0x0d) || code == 0x20 || code == 0x85 || code == 0xa0 || code
        == 0x1680 || (0x2000 <= code && code <= 0x200a) || code == 0x2028 || code == 0x2029
        || code == 0x202f || code == 0x205f || code == 0x3000
}

fn to_ascii_lower(c: char) -> (lower: char)
    ensures
        lower == ascii_lower(c),
{
    if 'A' <= c && c <= 'Z' {
        (c as u8 + 32) as char
    } else {
        c
    }
}

/// The characters of an extension.
#[derive(Debug)]
struct Extension {
    chars: Vec<char>,
}

spec fn codes(s: Seq<char>) -> Seq<int> {
    Seq::new(s.len(), |i: int| s[i] as int)
}

proof fn lemma_codes_injective(a: Seq<char>, b: Seq<char>)
    requires
        codes(a) == codes(b),
    ensures
        a == b,
{
    assert(codes(a).len() == a.len() && codes(b).len() == b.len());
    assert forall|i: int| 0 <= i < a.len() implies a[i] == b[i] by {
        assert(codes(a)[i] == a[i] as int && codes(b)[i] == b[i] as int);
    }
    assert(a =~= b);
}

impl Key for Extension {
    type Model = Seq<char>;

    closed spec fn model(&self) -> Seq<char> {
        self.chars@
    }

    closed spec fn before(a: Seq<char>, b: Seq<char>) -> bool {
        order::lex_before(codes(a), codes(b))
    }

    proof fn lemma_irreflexive(a: Seq<char>) {
        order::lemma_lex_irreflexive(codes(a));
    }

    proof fn lemma_transitive(a: Seq<char>, b: Seq<char>, c: Seq<char>) {
        order::lemma_lex_transitive(codes(a), codes(b), codes(c));
    }

    proof fn lemma_total(a: Seq<char>, b: Seq<char>) {
        order::lemma_lex_total(codes(a), codes(b));
        if codes(a) == codes(b) {
            lemma_codes_injective(a, b);
        }
    }

    fn compare(&self, other: &Extension) -> (standing: Precedence) {
        let ghost a = codes(self.chars@);
        let ghost b = codes(other.chars@);
        let mut i: usize = 0;
        while i < self.chars.len() && i < other.chars.len() && self.chars[i] == other.chars[i]
            invariant
                a == codes(self.chars@),
                b == codes(other.chars@),
                order::agree_until(a, b, i as int),
            decreases self.chars.len() - i,
        {
            i = i + 1;
        }
        if i == self.chars.len() && i == other.chars.len() {
            proof {
                assert(a =~= b);
                lemma_codes_injective(self.chars@, other.chars@);
            }
            Precedence::Same
        } else if i == self.chars.len() || (i < other.chars.len() && self.chars[i]
            < other.chars[i]) {
            assert(order::lex_before_at(a, b, i as int));
            Precedence::Before
        } else {
            assert(order::lex_before_at(b, a, i as int));
            Precedence::After
        }
    }

    fn duplicate(&self) -> (copy: Extension) {
        let chars = self.chars.clone();
        assert(chars@ =~= self.chars@);
        Extension { chars }
    }
}

/// The extension that the characters from `from` up to `to` ask for.
fn read_extension(chars: &Vec<char>, from: usize, to: usize) -> (extension: Extension)
    requires
        from <= to <= chars@.len(),
    ensures
        extension.chars@ == extension_in(chars@.subrange(from as int, to as int)),
{
    let ghost piece = chars@.subrange(from as int, to as int);
    let mut start: usize = from;
    while start < to && is_white_space_char(chars[start])
        invariant
            from <= start <= to <= chars@.len(),
            trim_start(piece) == trim_start(chars@.subrange(start as int, to as int)),
        decreases to - start,
    {
        assert(chars@.subrange(start as int, to as int).skip(1) =~= chars@.subrange(
            start + 1,
            to as int,
        ));
        start = start + 1;
    }
    let ghost trimmed = trim_start(piece);
    let mut end: usize = to;
    while start < end && is_white_space_char(chars[end - 1])
        invariant
            start <= end <= chars@.len(),
            trim_end(trimmed) == trim_end(chars@.subrange(start as int, end as int)),
        decreases end,
    {
        assert(chars@.subrange(start as int, end as int).drop_last() =~= chars@.subrange(
            start as int,
            end - 1,
        ));
        end = end - 1;
    }
    let ghost trimmed = trim_end(trimmed);
    while start < end && chars[start] == '.'
        invariant
            start <= end <= chars@.len(),
            without_leading_dots(trimmed) == without_leading_dots(
                chars@.subrange(start as int, end as int),
            ),
        decreases end - start,
    {
        assert(chars@.subrange(start as int, end as int).skip(1) =~= chars@.subrange(
            start + 1,
            end as int,
        ));
        start = start + 1;
    }
    lowercase(chars, start, end)
}

/// The characters from `from` up to `to` in ASCII lower case.
fn lowercase(chars: &Vec<char>, from: usize, to: usize) -> (extension: Extension)
    requires
        from <= to <= chars@.len(),
    ensures
        extension.chars@ == ascii_lowercase(chars@.subrange(from as int, to as int)),
{
    let mut lower: Vec<char> = Vec::new();
    for i in from..to
        invariant
            from <= to <= chars@.len(),
            lower@ =~= ascii_lowercase(chars@.subrange(from as int, i as int)),
    {
        lower.push(to_ascii_lower(chars[i]));
    }
    Extension { chars: lower }
}

/// A set of extensions.
#[derive(Debug)]
struct ExtensionSet {
    names: OrderedMap<Extension, ()>,
}

impl ExtensionSet {
    spec fn names(&self) -> Set<Seq<char>> {
        self.names@.dom()
    }

    fn new() -> (extensions: ExtensionSet)
        ensures
            extensions.names() == Set::<Seq<char>>::empty(),
    {
        ExtensionSet { names: OrderedMap::new() }
    }

    fn is_empty(&self) -> (empty: bool)
        ensures
            empty == (self.names() == Set::<Seq<char>>::empty()),
    {
        let len: usize = self.names.len();
        proof {
            if len == 0 {
                self.names().lemma_len0_is_empty();
            }
        }
        len == 0
    }

    /// Whether the other set holds as much.
    fn same_as(&self, other: &ExtensionSet) -> (same: bool)
        ensures
            same == (self.names() == other.names()),
    {
        let len: usize = self.names.len();
        if len != other.names.len() {
            return false;
        }
        let ghost listing = self.names.listing();
        proof {
            crate::ordered_map::lemma_map_of::<Extension, ()>(listing);
        }
        for i in 0..len
            invariant
                listing == self.names.listing(),
                crate::ordered_map::strictly_ordered::<Extension, ()>(listing),
                len == listing.len(),
                forall|j: int| 0 <= j < i ==> other.names().contains((#[trigger] listing[j]).0),
        {
            if !other.names.contains_key(self.names.key_at(i)) {
                proof {
                    crate::ordered_map::lemma_map_of::<Extension, ()>(listing);
                    assert(self.names().contains(listing[i as int].0));
                }
                return false;
            }
        }
        proof {
            assert forall|name: Seq<char>|
                self.names().contains(name) implies other.names().contains(name) by {
                assert(self.names@.contains_key(name));
                let j = choose|j: int| 0 <= j < listing.len() && (#[trigger] listing[j]).0 == name;
                assert(other.names().contains(listing[j].0));
            }
            assert(self.names@.len() == other.names@.len());
            vstd::set_lib::lemma_subset_equality(self.names(), other.names());
        }
        true
    }

    fn duplicate(&self) -> (copy: ExtensionSet)
        ensures
            copy.names() == self.names(),
    {
        ExtensionSet { names: self.names.duplicate() }
    }

    /// Adds an extension, unless it is empty.
    fn add(&mut self, extension: Extension)
        ensures
            final(self).names() == (if extension.chars@.len() == 0 {
                old(self).names()
            } else {
                old(self).names().insert(extension.chars@)
            }),
    {
        if extension.chars.len() > 0 {
            self.names.insert(extension, ());
            assert(self.names() =~= old(self).names().insert(extension.chars@));
        }
    }
}

/// The extensions that a comma-separated list asks for.
fn parse_extensions(value: &str) -> (extensions: ExtensionSet)
    ensures
        extensions.names() == extensions_in(value@),
{
    let chars = chars_of(value);
    let ghost s = value@;
    let mut extensions = ExtensionSet::new();
    let mut start: usize = 0;
    assert(s.take(0) =~= Seq::<char>::empty());
    assert(s.subrange(0, 0) =~= Seq::<char>::empty());
    assert(extensions.names() =~= extensions_of(text::split(s.take(0), ',').drop_last()));
    for at in 0..chars.len()
        invariant
            chars@ == s,
            start <= at,
            text::split(s.take(at as int), ',').len() > 0,
            text::split(s.take(at as int), ',').last() == s.subrange(start as int, at as int),
            extensions.names() == extensions_of(text::split(s.take(at as int), ',').drop_last()),
    {
        let ghost pieces = text::split(s.take(at as int), ',');
        proof {
            assert(s.take(at + 1) =~= s.take(at as int).push(s[at as int]));
            text::lemma_split_push(s.take(at as int), s[at as int], ',');
        }
        if chars[at] == ',' {
            extensions.add(read_extension(&chars, start, at));
            proof {
                lemma_extensions_push(pieces.drop_last(), pieces.last());
                assert(pieces.drop_last().push(pieces.last()) =~= pieces);
                assert(pieces.push(Seq::<char>::empty()).drop_last() =~= pieces);
                assert(s.subrange(at + 1, at + 1) =~= Seq::<char>::empty());
            }
            start = at + 1;
        } else {
            proof {
                assert(s.subrange(start as int, at + 1) =~= s.subrange(
                    start as int,
                    at as int,
                ).push(s[at as int]));
                assert(text::split(s.take(at + 1), ',').drop_last() =~= pieces.drop_last());
            }
        }
    }
    extensions.add(read_extension(&chars, start, chars.len()));
    proof {
        assert(s.take(s.len() as int) =~= s);
        let pieces = text::split(s, ',');
        lemma_extensions_push(pieces.drop_last(), pieces.last());
        assert(pieces.drop_last().push(pieces.last()) =~= pieces);
    }
    extensions
}

proof fn lemma_extensions_push(pieces: Seq<Seq<char>>, piece: Seq<char>)
    ensures
        extensions_of(pieces.push(piece)) == (if extension_in(piece).len() == 0 {
            extensions_of(pieces)
        } else {
            extensions_of(pieces).insert(extension_in(piece))
        }),
{
    let more = pieces.push(piece);
    assert forall|extension: Seq<char>|
        extension.len() > 0 && (extensions_of(pieces).contains(extension) || extension
            == extension_in(piece)) implies extensions_of(more).contains(extension) by {
        if extensions_of(pieces).contains(extension) {
            let i = choose|i: int|
                0 <= i < pieces.len() && extension == extension_in(#[trigger] pieces[i]);
            assert(more[i] == pieces[i]);
        } else {
            assert(more[pieces.len() as int] == piece);
        }
    }
    assert forall|extension: Seq<char>| extensions_of(more).contains(extension) implies (
    extensions_of(pieces).contains(extension) || extension == extension_in(piece)) by {
        let i = choose|i: int|
            0 <= i < more.len() && extension == extension_in(#[trigger] more[i]);
        if i < pieces.len() {
            assert(pieces[i] == more[i]);
        }
    }
    assert(extensions_of(more) =~= (if extension_in(piece).len() == 0 {
        extensions_of(pieces)
    } else {
        extensions_of(pieces).insert(extension_in(piece))
    }));
}

/// Whether `extensions` holds `extension`, as it stands or in ASCII lower case.
fn contains_extension(extensions: &ExtensionSet, extension: &str) -> (held: bool)
    ensures
        held == holds_extension(extensions.names(), extension@),
{
    let given = Extension { chars: chars_of(extension) };
    if extensions.names.contains_key(&given) {
        return true;
    }
    assert(given.chars@.subrange(0, given.chars@.len() as int) =~= given.chars@);
    extensions.names.contains_key(&lowercase(&given.chars, 0, given.chars.len()))
}

/// Picks the files to count by their extensions: those that are included, or
/// all where none is, except those that are excluded.
#[derive(Debug)]
pub struct LineCountFilter {
    included: ExtensionSet,
    excluded: ExtensionSet,
}

impl LineCountFilter {
    pub closed spec fn included(&self) -> Set<Seq<char>> {
        self.included.names()
    }

    pub closed spec fn excluded(&self) -> Set<Seq<char>> {
        self.excluded.names()
    }

    /// Whether the file at `path` is to be counted.
    pub open spec fn admits(&self, path: Seq<char>) -> bool {
        lets_through(self.included(), self.excluded(), path)
    }

    /// A filter from two comma-separated lists of extensions.
    pub fn new(included: &str, excluded: &str) -> (filter: LineCountFilter)
        ensures
            filter.included() == extensions_in(included@),
            filter.excluded() == extensions_in(excluded@),
    {
        LineCountFilter {
            included: parse_extensions(included),
            excluded: parse_extensions(excluded),
        }
    }

    /// Whether the file at `path` is to be counted.
    pub fn includes(&self, path: &RelPath) -> (included: bool)
        ensures
            included == self.admits(path@),
    {
        if self.included.is_empty() && self.excluded.is_empty() {
            return true;
        }
        let extension = path.extension();
        if let Some(name) = extension {
            if contains_extension(&self.excluded, name) {
                return false;
            }
        }
        if self.included.is_empty() {
            return true;
        }
        match extension {
            Some(name) => contains_extension(&self.included, name),
            None => false,
        }
    }
}

impl Default for LineCountFilter {
    fn default() -> (filter: LineCountFilter)
        ensures
            filter.included() == Set::<Seq<char>>::empty(),
            filter.excluded() == Set::<Seq<char>>::empty(),
    {
        LineCountFilter { included: ExtensionSet::new(), excluded: ExtensionSet::new() }
    }
}

impl Clone for LineCountFilter {
    fn clone(&self) -> (copy: LineCountFilter)
        ensures
            copy.included() == self.included(),
            copy.excluded() == self.excluded(),
    {
        LineCountFilter {
            included: self.included.duplicate(),
            excluded: self.excluded.duplicate(),
        }
    }
}

impl PartialEq for LineCountFilter {
    fn eq(&self, other: &LineCountFilter) -> (same: bool) {
        self.included.same_as(&other.included) && self.excluded.same_as(&other.excluded)
    }
}

impl vstd::std_specs::cmp::PartialEqSpecImpl for LineCountFilter {
    open spec fn obeys_eq_spec() -> bool {
        true
    }

    open spec fn eq_spec(&self, other: &LineCountFilter) -> bool {
        self.included() == other.included() && self.excluded() == other.excluded()
    }
}

impl Eq for LineCountFilter {
}

} // verus!
