//! Paths as text, read the way Unix reads them: separated by `/`, compared component by
//! component, with repeated separators and `.` below the start counting for nothing.

use crate::text::{at_most, chars_of, from_chars, same, text_le};
use crate::text::{bytes_le_total, bytes_le_transitive};
use vstd::prelude::*;
use vstd::utf8::encode_utf8;

verus! {

/// One component of a path.
pub enum Part {
    /// The leading `/`.
    Root,
    /// A leading `.`.
    Current,
    /// `..`
    Up,
    Name(String),
}

/// A [`Part`] in specifications.
pub enum PartSpec {
    Root,
    Current,
    Up,
    Name(Seq<char>),
}

impl View for Part {
    type V = PartSpec;

    open spec fn view(&self) -> PartSpec {
        match *self {
            Part::Root => PartSpec::Root,
            Part::Current => PartSpec::Current,
            Part::Up => PartSpec::Up,
            Part::Name(name) => PartSpec::Name(name@),
        }
    }
}

/// The components that a list of parts stands for.
pub open spec fn views(parts: Seq<Part>) -> Seq<PartSpec> {
    parts.map_values(|part: Part| part@)
}

/// What stands between the separators, the empty stretches included.
pub open spec fn pieces(path: Seq<char>) -> Seq<Seq<char>>
    decreases path.len(),
{
    if path.len() == 0 {
        seq![Seq::empty()]
    } else {
        let before = pieces(path.drop_last());
        if path.last() == '/' {
            before.push(Seq::empty())
        } else {
            before.drop_last().push(before.last().push(path.last()))
        }
    }
}

/// Whether a piece is a component, and which; `first` is the piece a relative path opens with.
pub open spec fn part_of(piece: Seq<char>, first: bool) -> Option<PartSpec> {
    if piece.len() == 0 {
        None
    } else if piece == seq!['.'] {
        if first {
            Some(PartSpec::Current)
        } else {
            None
        }
    } else if piece == seq!['.', '.'] {
        Some(PartSpec::Up)
    } else {
        Some(PartSpec::Name(piece))
    }
}

/// The components among `pieces`.
pub open spec fn kept(pieces: Seq<Seq<char>>) -> Seq<PartSpec>
    decreases pieces.len(),
{
    if pieces.len() == 0 {
        Seq::empty()
    } else {
        let before = kept(pieces.drop_last());
        match part_of(pieces.last(), pieces.len() == 1) {
            Some(part) => before.push(part),
            None => before,
        }
    }
}

/// Whether a path starts at the root.
pub open spec fn absolute(path: Seq<char>) -> bool {
    path.len() > 0 && path[0] == '/'
}

/// The components of a path.
pub open spec fn parts(path: Seq<char>) -> Seq<PartSpec> {
    if absolute(path) {
        seq![PartSpec::Root] + kept(pieces(path))
    } else {
        kept(pieces(path))
    }
}

/// Whether `path` is `base` or lies below it.
pub open spec fn within(path: Seq<char>, base: Seq<char>) -> bool {
    parts(base).is_prefix_of(parts(path))
}

/// Whether two paths are the same path.
pub open spec fn same_path(a: Seq<char>, b: Seq<char>) -> bool {
    parts(a) == parts(b)
}

/// The last component, where it is a name.
pub open spec fn file_name_of(path: Seq<char>) -> Option<Seq<char>> {
    if parts(path).len() > 0 {
        match parts(path).last() {
            PartSpec::Name(name) => Some(name),
            _ => None,
        }
    } else {
        None
    }
}

/// `tail` as seen from `base`: below it, or in its place when `tail` is absolute.
pub open spec fn joined(base: Seq<char>, tail: Seq<char>) -> Seq<char> {
    if absolute(tail) {
        tail
    } else if base.len() > 0 && base.last() != '/' {
        base.push('/') + tail
    } else {
        base + tail
    }
}

/// The text of one component.
pub open spec fn part_text(part: PartSpec) -> Seq<char> {
    match part {
        PartSpec::Root => seq!['/'],
        PartSpec::Current => seq!['.'],
        PartSpec::Up => seq!['.', '.'],
        PartSpec::Name(name) => name,
    }
}

/// `base` with every component of `rest` below it.
pub open spec fn extended(base: Seq<char>, rest: Seq<PartSpec>) -> Seq<char>
    decreases rest.len(),
{
    if rest.len() == 0 {
        base
    } else {
        joined(extended(base, rest.drop_last()), part_text(rest.last()))
    }
}

/// A path written without anything that does not count.
pub open spec fn normal(path: Seq<char>) -> Seq<char> {
    extended(Seq::empty(), parts(path))
}

/// A name a directory can hold: not empty, no separator, neither `.` nor `..`.
pub open spec fn plain_name(name: Seq<char>) -> bool {
    &&& name.len() > 0
    &&& !name.contains('/')
    &&& name != seq!['.']
    &&& name != seq!['.', '.']
}

pub proof fn pieces_not_empty(path: Seq<char>)
    ensures
        pieces(path).len() > 0,
    decreases path.len(),
{
    if path.len() > 0 {
        pieces_not_empty(path.drop_last());
    }
}

proof fn pieces_after_separator(base: Seq<char>, name: Seq<char>)
    requires
        !name.contains('/'),
    ensures
        pieces(base.push('/') + name) == pieces(base).push(name),
    decreases name.len(),
{
    let whole = base.push('/') + name;
    if name.len() == 0 {
        assert(whole =~= base.push('/'));
        assert(whole.drop_last() =~= base);
        assert(name =~= Seq::empty());
    } else {
        let rest = name.drop_last();
        assert(!rest.contains('/')) by {
            if rest.contains('/') {
                let i = choose|i: int| 0 <= i < rest.len() && rest[i] == '/';
                assert(name[i] == '/');
            }
        }
        pieces_after_separator(base, rest);
        assert(whole.drop_last() =~= base.push('/') + rest);
        assert(whole.last() == name.last());
        assert(name.contains(name.last()));
        let before = pieces(base).push(rest);
        assert(before.drop_last() =~= pieces(base));
        assert(rest.push(name.last()) =~= name);
    }
}

proof fn pieces_of_name(name: Seq<char>)
    requires
        !name.contains('/'),
    ensures
        pieces(name) == seq![name],
    decreases name.len(),
{
    if name.len() == 0 {
        assert(name =~= Seq::empty());
    } else {
        let rest = name.drop_last();
        assert(!rest.contains('/')) by {
            if rest.contains('/') {
                let i = choose|i: int| 0 <= i < rest.len() && rest[i] == '/';
                assert(name[i] == '/');
            }
        }
        pieces_of_name(rest);
        assert(name.contains(name.last()));
        assert(rest.push(name.last()) =~= name);
        assert(seq![rest].drop_last().push(name) =~= seq![name]);
    }
}

/// Joining a plain name adds exactly that component.
pub proof fn joining_a_name(base: Seq<char>, name: Seq<char>)
    requires
        plain_name(name),
    ensures
        parts(joined(base, name)) == parts(base).push(PartSpec::Name(name)),
{
    assert(name.contains(name[0]));
    assert(!absolute(name));
    if base.len() == 0 {
        assert(joined(base, name) =~= name);
        pieces_of_name(name);
        assert(pieces(base) =~= seq![Seq::<char>::empty()]);
        reveal_with_fuel(kept, 3);
        assert(seq![name].drop_last() =~= Seq::empty());
        assert(pieces(base).drop_last() =~= Seq::empty());
        assert(parts(base) =~= Seq::empty());
        assert(parts(joined(base, name)) =~= seq![PartSpec::Name(name)]);
    } else if base.last() != '/' {
        pieces_not_empty(base);
        pieces_after_separator(base, name);
        let whole = joined(base, name);
        assert(whole =~= base.push('/') + name);
        assert(whole[0] == base[0]);
        assert(pieces(whole).drop_last() =~= pieces(base));
        assert(kept(pieces(whole)) == kept(pieces(base)).push(PartSpec::Name(name)));
        if absolute(base) {
            assert(parts(whole) =~= parts(base).push(PartSpec::Name(name)));
        }
    } else {
        let start = base.drop_last();
        pieces_not_empty(start);
        assert(base =~= start.push('/'));
        pieces_after_separator(start, name);
        let whole = joined(base, name);
        assert(whole =~= start.push('/') + name);
        assert(whole[0] == base[0]);
        assert(pieces(base) == pieces(start).push(Seq::empty()));
        assert(pieces(base).drop_last() =~= pieces(start));
        assert(pieces(whole).drop_last() =~= pieces(start));
        assert(kept(pieces(base)) == kept(pieces(start)));
        assert(kept(pieces(whole)) == kept(pieces(start)).push(PartSpec::Name(name)));
        if absolute(base) {
            assert(parts(whole) =~= parts(base).push(PartSpec::Name(name)));
        }
    }
}

/// Splits `path` into its components.
pub fn components(path: &str) -> (found: Vec<Part>)
    ensures
        views(found@) == parts(path@),
{
    let chars: Vec<char> = chars_of(path);
    let mut found: Vec<Part> = Vec::new();
    if chars.len() > 0 && chars[0] == '/' {
        found.push(Part::Root);
    }
    let ghost root = views(found@);
    let mut start: usize = 0;
    let mut i: usize = 0;
    let ghost mut done: Seq<Seq<char>> = Seq::empty();
    proof {
        assert(chars@.take(0) =~= Seq::empty());
        assert(chars@.subrange(0, 0) =~= Seq::empty());
        assert(pieces(Seq::<char>::empty()) =~= done.push(Seq::empty()));
        assert(root =~= if absolute(path@) { seq![PartSpec::Root] } else { Seq::empty() });
        assert(views(found@) =~= root + kept(done));
    }
    while i < chars.len()
        invariant
            start <= i <= chars.len(),
            pieces(chars@.take(i as int)) == done.push(chars@.subrange(start as int, i as int)),
            done.len() == 0 <==> start == 0,
            views(found@) == root + kept(done),
        decreases chars.len() - i,
    {
        assert(chars@.take(i + 1).drop_last() =~= chars@.take(i as int));
        if chars[i] == '/' {
            push_piece(&mut found, &chars, start, i, Ghost(root), Ghost(done));
            proof {
                done = done.push(chars@.subrange(start as int, i as int));
                assert(chars@.subrange(i + 1, i + 1) =~= Seq::empty());
            }
            start = i + 1;
        } else {
            proof {
                let before = done.push(chars@.subrange(start as int, i as int));
                assert(before.drop_last() =~= done);
                assert(chars@.subrange(start as int, i + 1) =~= before.last().push(chars@[i as int]));
            }
        }
        i += 1;
    }
    push_piece(&mut found, &chars, start, i, Ghost(root), Ghost(done));
    proof {
        assert(chars@.take(chars.len() as int) =~= path@);
        if !absolute(path@) {
            assert(root + kept(pieces(path@)) =~= kept(pieces(path@)));
        }
    }
    found
}

/// Appends the component that `chars[start..end]` is, if it is one.
fn push_piece(
    found: &mut Vec<Part>,
    chars: &Vec<char>,
    start: usize,
    end: usize,
    Ghost(root): Ghost<Seq<PartSpec>>,
    Ghost(done): Ghost<Seq<Seq<char>>>,
)
    requires
        start <= end <= chars.len(),
        done.len() == 0 <==> start == 0,
        views(old(found)@) == root + kept(done),
    ensures
        views(final(found)@) == root + kept(done.push(chars@.subrange(start as int, end as int))),
{
    let ghost piece = chars@.subrange(start as int, end as int);
    let ghost all = done.push(piece);
    let ghost before = found@;
    assert(all.drop_last() =~= done);
    if start == end {
        return;
    }
    if end - start == 1 && chars[start] == '.' {
        assert(piece =~= seq!['.']);
        if start == 0 {
            found.push(Part::Current);
            assert(views(found@) =~= views(before).push(PartSpec::Current));
        }
    } else if end - start == 2 && chars[start] == '.' && chars[start + 1] == '.' {
        assert(piece =~= seq!['.', '.']);
        found.push(Part::Up);
        assert(views(found@) =~= views(before).push(PartSpec::Up));
    } else {
        assert(piece[0] == chars@[start as int]);
        assert(end - start == 2 ==> piece[1] == chars@[start + 1]);
        let name: String = from_chars(chars, start, end);
        found.push(Part::Name(name));
        assert(views(found@) =~= views(before).push(PartSpec::Name(piece)));
    }
    assert(views(found@) =~= root + kept(all));
}

impl Part {
    /// Whether two components are the same.
    pub fn same_as(&self, other: &Part) -> (r: bool)
        ensures
            r == (self@ == other@),
    {
        match (self, other) {
            (Part::Root, Part::Root) => true,
            (Part::Current, Part::Current) => true,
            (Part::Up, Part::Up) => true,
            (Part::Name(a), Part::Name(b)) => same(a, b),
            _ => false,
        }
    }
}

/// Whether the components of `base` open those of `path`.
pub fn opens(base: &Vec<Part>, path: &Vec<Part>) -> (r: bool)
    ensures
        r == views(base@).is_prefix_of(views(path@)),
{
    if base.len() > path.len() {
        return false;
    }
    let mut i: usize = 0;
    while i < base.len()
        invariant
            i <= base.len() <= path.len(),
            forall|k: int| 0 <= k < i ==> views(base@)[k] == views(path@)[k],
        decreases base.len() - i,
    {
        if !base[i].same_as(&path[i]) {
            assert(views(base@)[i as int] != views(path@)[i as int]);
            return false;
        }
        i += 1;
    }
    assert(views(base@) =~= views(path@).take(base.len() as int));
    true
}

/// Whether `path` is `base` or lies below it.
pub fn starts_with(path: &str, base: &str) -> (r: bool)
    ensures
        r == within(path@, base@),
{
    let whole: Vec<Part> = components(path);
    let start: Vec<Part> = components(base);
    opens(&start, &whole)
}

/// Whether two paths are the same path.
pub fn same_paths(a: &str, b: &str) -> (r: bool)
    ensures
        r == same_path(a@, b@),
{
    let x: Vec<Part> = components(a);
    let y: Vec<Part> = components(b);
    same_parts(&x, &y)
}

/// Whether two lists hold the same components.
pub fn same_parts(a: &Vec<Part>, b: &Vec<Part>) -> (r: bool)
    ensures
        r == (views(a@) == views(b@)),
{
    if a.len() != b.len() {
        assert(views(a@).len() != views(b@).len());
        return false;
    }
    let r: bool = opens(a, b);
    assert(r ==> views(a@) =~= views(b@));
    r
}

/// The last component of `path`, where it is a name.
pub fn file_name(path: &str) -> (r: Option<String>)
    ensures
        r is Some == file_name_of(path@) is Some,
        r is Some ==> r->0@ == file_name_of(path@)->0,
{
    let mut found: Vec<Part> = components(path);
    let ghost all = found@;
    match found.pop() {
        Some(part) => {
            assert(views(all).last() == part@);
            match part {
                Part::Name(name) => Some(name),
                _ => None,
            }
        },
        None => None,
    }
}

/// `tail` as seen from `base`.
pub fn join(base: &str, tail: &str) -> (path: String)
    ensures
        path@ == joined(base@, tail@),
{
    let ahead: Vec<char> = chars_of(tail);
    if ahead.len() > 0 && ahead[0] == '/' {
        return tail.to_owned();
    }
    let so_far: Vec<char> = chars_of(base);
    let mut path: String = base.to_owned();
    if so_far.len() > 0 && so_far[so_far.len() - 1] != '/' {
        path.push('/');
    }
    path.append(tail);
    path
}

/// `base` with the components `rest[from..]` below it.
pub fn extend(base: &str, rest: &Vec<Part>, from: usize) -> (path: String)
    requires
        from <= rest.len(),
    ensures
        path@ == extended(base@, views(rest@).skip(from as int)),
{
    let mut path: String = base.to_owned();
    let mut i: usize = from;
    let ghost all = views(rest@).skip(from as int);
    assert(all.take(0) =~= Seq::empty());
    while i < rest.len()
        invariant
            from <= i <= rest.len(),
            all == views(rest@).skip(from as int),
            path@ == extended(base@, all.take(i - from)),
        decreases rest.len() - i,
    {
        assert(all.take(i + 1 - from).drop_last() =~= all.take(i - from));
        assert(all.take(i + 1 - from).last() == rest[i as int]@);
        path = match &rest[i] {
            Part::Root => {
                proof {
                    reveal_strlit("/");
                    assert("/"@ =~= seq!['/']);
                }
                join(&path, "/")
            },
            Part::Current => {
                proof {
                    reveal_strlit(".");
                    assert("."@ =~= seq!['.']);
                }
                join(&path, ".")
            },
            Part::Up => {
                proof {
                    reveal_strlit("..");
                    assert(".."@ =~= seq!['.', '.']);
                }
                join(&path, "..")
            },
            Part::Name(name) => join(&path, name),
        };
        i += 1;
    }
    assert(all.take(all.len() as int) =~= all);
    path
}

/// `path` without repeated separators, a trailing one, or `.` below the start.
pub fn normalize(path: &str) -> (clean: String)
    ensures
        clean@ == normal(path@),
{
    let found: Vec<Part> = components(path);
    proof {
        reveal_strlit("");
        assert(""@ =~= Seq::empty());
        assert(views(found@).skip(0) =~= views(found@));
    }
    extend("", &found, 0)
}

/// The place of a kind of component in the order of paths.
pub open spec fn part_rank(part: PartSpec) -> int {
    match part {
        PartSpec::Root => 0,
        PartSpec::Current => 1,
        PartSpec::Up => 2,
        PartSpec::Name(_) => 3,
    }
}

/// Components in order: by kind, and names among themselves as strings.
pub open spec fn part_le(a: PartSpec, b: PartSpec) -> bool {
    match (a, b) {
        (PartSpec::Name(x), PartSpec::Name(y)) => text_le(x, y),
        _ => part_rank(a) <= part_rank(b),
    }
}

/// Paths in order: component by component, a path before what lies below it.
pub open spec fn parts_le(a: Seq<PartSpec>, b: Seq<PartSpec>) -> bool
    decreases a.len(),
{
    if a.len() == 0 {
        true
    } else if b.len() == 0 {
        false
    } else if a[0] != b[0] {
        part_le(a[0], b[0])
    } else {
        parts_le(a.drop_first(), b.drop_first())
    }
}

proof fn part_le_total(a: PartSpec, b: PartSpec)
    ensures
        part_le(a, b) || part_le(b, a),
{
    if let (PartSpec::Name(x), PartSpec::Name(y)) = (a, b) {
        bytes_le_total(encode_utf8(x), encode_utf8(y));
    }
}

proof fn part_le_transitive(a: PartSpec, b: PartSpec, c: PartSpec)
    requires
        part_le(a, b),
        part_le(b, c),
    ensures
        part_le(a, c),
{
    if let (PartSpec::Name(x), PartSpec::Name(y)) = (a, b) {
        if let PartSpec::Name(z) = c {
            bytes_le_transitive(encode_utf8(x), encode_utf8(y), encode_utf8(z));
        }
    }
}

proof fn part_le_antisymmetric(a: PartSpec, b: PartSpec)
    requires
        part_le(a, b),
        part_le(b, a),
    ensures
        a == b,
{
    if let (PartSpec::Name(x), PartSpec::Name(y)) = (a, b) {
        crate::text::text_le_antisymmetric(x, y);
    }
}

pub proof fn parts_le_total(a: Seq<PartSpec>, b: Seq<PartSpec>)
    ensures
        parts_le(a, b) || parts_le(b, a),
    decreases a.len(),
{
    if a.len() > 0 && b.len() > 0 {
        if a[0] == b[0] {
            parts_le_total(a.drop_first(), b.drop_first());
        } else {
            part_le_total(a[0], b[0]);
        }
    }
}

pub proof fn parts_le_transitive(a: Seq<PartSpec>, b: Seq<PartSpec>, c: Seq<PartSpec>)
    requires
        parts_le(a, b),
        parts_le(b, c),
    ensures
        parts_le(a, c),
    decreases a.len(),
{
    if a.len() > 0 && b.len() > 0 && c.len() > 0 {
        if a[0] == b[0] && b[0] == c[0] {
            parts_le_transitive(a.drop_first(), b.drop_first(), c.drop_first());
        } else if a[0] != b[0] && b[0] != c[0] {
            part_le_transitive(a[0], b[0], c[0]);
            if a[0] == c[0] {
                part_le_antisymmetric(a[0], b[0]);
            }
        }
    }
}

pub proof fn parts_le_antisymmetric(a: Seq<PartSpec>, b: Seq<PartSpec>)
    requires
        parts_le(a, b),
        parts_le(b, a),
    ensures
        a == b,
    decreases a.len(),
{
    if a.len() > 0 && b.len() > 0 {
        if a[0] == b[0] {
            parts_le_antisymmetric(a.drop_first(), b.drop_first());
            assert(a =~= seq![a[0]] + a.drop_first());
            assert(b =~= seq![b[0]] + b.drop_first());
        } else {
            part_le_antisymmetric(a[0], b[0]);
        }
    } else {
        assert(a =~= b);
    }
}

/// Whether the path of components `a` comes no later than that of `b`.
pub fn parts_at_most(a: &Vec<Part>, b: &Vec<Part>) -> (r: bool)
    ensures
        r == parts_le(views(a@), views(b@)),
{
    let ghost x = views(a@);
    let ghost y = views(b@);
    let mut i: usize = 0;
    assert(x.skip(0) =~= x);
    assert(y.skip(0) =~= y);
    while i < a.len() && i < b.len()
        invariant
            x == views(a@),
            y == views(b@),
            i <= a.len(),
            i <= b.len(),
            parts_le(x, y) == parts_le(x.skip(i as int), y.skip(i as int)),
        decreases a.len() - i,
    {
        assert(x.skip(i as int)[0] == a[i as int]@);
        assert(y.skip(i as int)[0] == b[i as int]@);
        if !a[i].same_as(&b[i]) {
            return match (&a[i], &b[i]) {
                (Part::Name(p), Part::Name(q)) => at_most(p, q),
                (Part::Root, _) => true,
                (_, Part::Root) => false,
                (Part::Current, _) => true,
                (_, Part::Current) => false,
                (Part::Up, _) => true,
                (_, Part::Up) => false,
            };
        }
        assert(x.skip(i as int).drop_first() =~= x.skip(i + 1));
        assert(y.skip(i as int).drop_first() =~= y.skip(i + 1));
        i += 1;
    }
    i == a.len()
}

/// How much of a path stands before its names: the root, or the dot a relative path may begin
/// with.
pub open spec fn lead(path: Seq<char>) -> int {
    if path.len() == 0 {
        0
    } else if path[0] == '/' {
        1
    } else if path[0] == '.' && (path.len() == 1 || path[1] == '/') {
        1
    } else {
        0
    }
}

/// Where the last name of a path begins, behind its lead.
pub open spec fn name_start(path: Seq<char>, from: int) -> int
    decreases path.len(),
{
    if path.len() == 0 || path.len() <= from || path.last() == '/' {
        path.len() as int
    } else {
        name_start(path.drop_last(), from)
    }
}

/// A path without its last name and the separator before it.
pub open spec fn cut_name(path: Seq<char>, from: int) -> Seq<char> {
    let start = name_start(path, from);
    if start > from {
        path.take(start - 1)
    } else {
        path.take(start)
    }
}

/// Whether the last name of a path says nothing: it is empty or a dot.
pub open spec fn idle_name(path: Seq<char>, from: int) -> bool {
    let start = name_start(path, from);
    start == path.len() || (start + 1 == path.len() && path[start] == '.')
}

/// A path without the names at its end that say nothing.
pub open spec fn bare(path: Seq<char>, from: int) -> Seq<char>
    decreases path.len(),
{
    if 0 <= from < path.len() && idle_name(path, from) {
        proof {
            cutting_shortens(path, from);
        }
        bare(cut_name(path, from), from)
    } else {
        path
    }
}

/// The path without its last part: none for the root and for no path at all.
pub open spec fn parent_text(path: Seq<char>) -> Option<Seq<char>> {
    let from = lead(path);
    let clean = bare(path, from);
    if clean.len() > from {
        Some(bare(cut_name(clean, from), from))
    } else if from == 1 && path[0] == '.' {
        Some(Seq::empty())
    } else {
        None
    }
}

proof fn name_start_bounds(path: Seq<char>, from: int)
    requires
        0 <= from <= path.len(),
    ensures
        from <= name_start(path, from) <= path.len(),
    decreases path.len(),
{
    if path.len() > from && path.last() != '/' {
        name_start_bounds(path.drop_last(), from);
    }
}

/// Cutting a name off shortens a path, and leaves its lead.
pub proof fn cutting_shortens(path: Seq<char>, from: int)
    requires
        0 <= from < path.len(),
    ensures
        from <= cut_name(path, from).len() < path.len(),
        cut_name(path, from) == path.take(cut_name(path, from).len() as int),
{
    name_start_bounds(path, from);
    if path.last() == '/' {
        assert(name_start(path, from) == path.len());
    } else {
        name_start_bounds(path.drop_last(), from);
        assert(name_start(path, from) == name_start(path.drop_last(), from));
    }
}

/// Where the last name of `chars[..end]` begins.
fn find_name(chars: &Vec<char>, end: usize, from: usize) -> (start: usize)
    requires
        from <= end <= chars.len(),
    ensures
        start == name_start(chars@.take(end as int), from as int),
        from <= start <= end,
{
    let mut start: usize = end;
    while start > from && chars[start - 1] != '/'
        invariant
            from <= start <= end <= chars.len(),
            name_start(chars@.take(end as int), from as int) == name_start(
                chars@.take(start as int),
                from as int,
            ),
        decreases start,
    {
        assert(chars@.take(start as int).drop_last() =~= chars@.take(start - 1));
        assert(chars@.take(start as int).last() == chars@[start - 1]);
        start -= 1;
    }
    start
}

/// Where `chars[..end]` ends without the names at its end that say nothing.
fn find_bare(chars: &Vec<char>, end: usize, from: usize) -> (clean: usize)
    requires
        from <= end <= chars.len(),
    ensures
        from <= clean <= end,
        chars@.take(clean as int) == bare(chars@.take(end as int), from as int),
{
    let mut clean: usize = end;
    while clean > from
        invariant_except_break
            from <= clean <= end <= chars.len(),
            bare(chars@.take(end as int), from as int) == bare(
                chars@.take(clean as int),
                from as int,
            ),
        ensures
            from <= clean <= end,
            chars@.take(clean as int) == bare(chars@.take(end as int), from as int),
        decreases clean,
    {
        let ghost path = chars@.take(clean as int);
        let start: usize = find_name(chars, clean, from);
        proof {
            cutting_shortens(path, from as int);
        }
        let idle: bool = start == clean || (clean - start == 1 && chars[start] == '.');
        if !idle {
            break;
        }
        let next: usize = if start > from {
            start - 1
        } else {
            start
        };
        assert(cut_name(path, from as int) =~= chars@.take(next as int));
        clean = next;
    }
    clean
}

/// The path without its last part: none for the root and for no path at all.
pub fn parent(path: &str) -> (above: Option<String>)
    ensures
        match (above, parent_text(path@)) {
            (Some(above), Some(expected)) => above@ == expected,
            (None, None) => true,
            _ => false,
        },
{
    let chars: Vec<char> = chars_of(path);
    if chars.len() == 0 {
        return None;
    }
    let from: usize = if chars[0] == '/' || (chars[0] == '.' && (chars.len() == 1 || chars[1]
        == '/')) {
        1
    } else {
        0
    };
    assert(chars@.take(chars@.len() as int) =~= chars@);
    let clean: usize = find_bare(&chars, chars.len(), from);
    if clean > from {
        let ghost whole = chars@.take(clean as int);
        let start: usize = find_name(&chars, clean, from);
        let cut: usize = if start > from {
            start - 1
        } else {
            start
        };
        assert(cut_name(whole, from as int) =~= chars@.take(cut as int));
        let end: usize = find_bare(&chars, cut, from);
        assert(chars@.subrange(0, end as int) =~= chars@.take(end as int));
        Some(from_chars(&chars, 0, end))
    } else if from == 1 && chars[0] == '.' {
        let none: String = String::new();
        assert(none@ =~= Seq::empty());
        Some(none)
    } else {
        None
    }
}

/// Joining something that is one component adds that component.
proof fn joining_a_piece(base: Seq<char>, piece: Seq<char>, part: PartSpec)
    requires
        piece.len() > 0,
        !piece.contains('/'),
        part_of(piece, false) == Some(part),
        part_of(piece, true) == Some(part),
    ensures
        parts(joined(base, piece)) == parts(base).push(part),
{
    assert(piece.contains(piece[0]));
    assert(!absolute(piece));
    if base.len() == 0 {
        assert(joined(base, piece) =~= piece);
        pieces_of_name(piece);
        assert(pieces(base) =~= seq![Seq::<char>::empty()]);
        reveal_with_fuel(kept, 3);
        assert(seq![piece].drop_last() =~= Seq::empty());
        assert(pieces(base).drop_last() =~= Seq::empty());
        assert(parts(base) =~= Seq::empty());
        assert(parts(joined(base, piece)) =~= seq![part]);
    } else if base.last() != '/' {
        pieces_not_empty(base);
        pieces_after_separator(base, piece);
        let whole = joined(base, piece);
        assert(whole =~= base.push('/') + piece);
        assert(whole[0] == base[0]);
        assert(pieces(whole).drop_last() =~= pieces(base));
        assert(kept(pieces(whole)) == kept(pieces(base)).push(part));
        if absolute(base) {
            assert(parts(whole) =~= parts(base).push(part));
        }
    } else {
        let start = base.drop_last();
        pieces_not_empty(start);
        assert(base =~= start.push('/'));
        pieces_after_separator(start, piece);
        let whole = joined(base, piece);
        assert(whole =~= start.push('/') + piece);
        assert(whole[0] == base[0]);
        assert(pieces(base) == pieces(start).push(Seq::empty()));
        assert(pieces(base).drop_last() =~= pieces(start));
        assert(pieces(whole).drop_last() =~= pieces(start));
        assert(kept(pieces(base)) == kept(pieces(start)));
        assert(kept(pieces(whole)) == kept(pieces(start)).push(part));
        if absolute(base) {
            assert(parts(whole) =~= parts(base).push(part));
        }
    }
}

proof fn pieces_have_no_separator(path: Seq<char>)
    ensures
        forall|i: int| 0 <= i < pieces(path).len() ==> !(#[trigger] pieces(path)[i]).contains('/'),
        absolute(path) ==> pieces(path)[0].len() == 0 && pieces(path).len() > 1,
    decreases path.len(),
{
    if path.len() > 0 {
        let less = path.drop_last();
        pieces_have_no_separator(less);
        pieces_not_empty(less);
        let before = pieces(less);
        let now = pieces(path);
        assert forall|i: int| 0 <= i < now.len() implies !(#[trigger] now[i]).contains('/') by {
            if path.last() == '/' {
                if i < before.len() {
                    assert(now[i] == before[i]);
                }
            } else if i < before.len() - 1 {
                assert(now[i] == before[i]);
            } else {
                let piece = before.last();
                assert(!before[before.len() - 1].contains('/'));
                assert(now[i] == piece.push(path.last()));
                if now[i].contains('/') {
                    let k = choose|k: int| 0 <= k < now[i].len() && now[i][k] == '/';
                    assert(piece[k] == '/');
                }
            }
        }
        if absolute(path) {
            if less.len() == 0 {
                assert(path.last() == '/');
                assert(before[0] =~= Seq::empty());
            } else {
                assert(less[0] == path[0]);
                assert(now[0] == before[0]);
            }
        }
    }
}

/// Whether a part can stand at place `k` of a path.
spec fn can_stand(part: PartSpec, k: int) -> bool {
    match part {
        PartSpec::Root => k == 0,
        PartSpec::Current => k == 0,
        PartSpec::Up => true,
        PartSpec::Name(name) => plain_name(name),
    }
}

proof fn kept_can_stand(list: Seq<Seq<char>>)
    requires
        forall|i: int| 0 <= i < list.len() ==> !(#[trigger] list[i]).contains('/'),
    ensures
        forall|k: int| 0 <= k < kept(list).len() ==> can_stand(#[trigger] kept(list)[k], k),
        forall|k: int|
            0 <= k < kept(list).len() ==> !(#[trigger] kept(list)[k] is Root) && (kept(list)[k] is Current
                ==> list[0].len() > 0),
        kept(list).len() <= list.len(),
    decreases list.len(),
{
    if list.len() > 0 {
        let less = list.drop_last();
        assert forall|i: int| 0 <= i < less.len() implies !(#[trigger] less[i]).contains('/') by {
            assert(less[i] == list[i]);
        }
        kept_can_stand(less);
        let before = kept(less);
        let now = kept(list);
        assert(!list[list.len() - 1].contains('/'));
        assert forall|k: int| 0 <= k < now.len() implies can_stand(#[trigger] now[k], k) && !(now[k] is Root)
            && (now[k] is Current ==> list[0].len() > 0) by {
            if k < before.len() {
                assert(now[k] == before[k]);
            }
        }
    }
}

proof fn parts_can_stand(path: Seq<char>)
    ensures
        forall|k: int| 0 <= k < parts(path).len() ==> can_stand(#[trigger] parts(path)[k], k),
{
    pieces_have_no_separator(path);
    kept_can_stand(pieces(path));
    let inner = kept(pieces(path));
    assert forall|k: int| 0 <= k < parts(path).len() implies can_stand(#[trigger] parts(path)[k], k) by {
        if absolute(path) {
            if k > 0 {
                assert(parts(path)[k] == inner[k - 1]);
                assert(can_stand(inner[k - 1], k - 1));
                assert(!(inner[k - 1] is Root));
            }
        }
    }
}

proof fn joining_the_next(base: Seq<char>, part: PartSpec)
    requires
        can_stand(part, parts(base).len() as int),
        parts(base).len() == 0 ==> base.len() == 0,
    ensures
        parts(joined(base, part_text(part))) == parts(base).push(part),
{
    match part {
        PartSpec::Root => {
            let top = seq!['/'];
            assert(joined(base, top) == top);
            pieces_not_empty(Seq::<char>::empty());
            assert(top.drop_last() =~= Seq::<char>::empty());
            let none = Seq::<char>::empty();
            assert(pieces(none) =~= seq![none]);
            assert(pieces(top) =~= seq![none, none]);
            reveal_with_fuel(kept, 3);
            assert(seq![none, none].drop_last() =~= seq![none]);
            assert(seq![none].drop_last() =~= Seq::empty());
            assert(parts(top) =~= seq![PartSpec::Root]);
            assert(parts(base).push(part) =~= seq![PartSpec::Root]);
        },
        PartSpec::Current => {
            let dot = seq!['.'];
            assert(base =~= Seq::empty());
            assert(joined(base, dot) =~= dot);
            assert(!dot.contains('/'));
            pieces_of_name(dot);
            reveal_with_fuel(kept, 2);
            assert(seq![dot].drop_last() =~= Seq::empty());
            assert(parts(dot) =~= seq![PartSpec::Current]);
            assert(parts(base).push(part) =~= seq![PartSpec::Current]);
        },
        PartSpec::Up => {
            let up = seq!['.', '.'];
            assert(!up.contains('/'));
            assert(up.len() == 2 && seq!['.'].len() == 1);
            joining_a_piece(base, up, PartSpec::Up);
        },
        PartSpec::Name(name) => {
            joining_a_name(base, name);
        },
    }
}

proof fn extending_adds(whole: Seq<PartSpec>, k: nat)
    requires
        k <= whole.len(),
        forall|i: int| 0 <= i < whole.len() ==> can_stand(#[trigger] whole[i], i),
    ensures
        parts(extended(Seq::empty(), whole.take(k as int))) == whole.take(k as int),
        k == 0 ==> extended(Seq::<char>::empty(), whole.take(k as int)).len() == 0,
    decreases k,
{
    let now = whole.take(k as int);
    if k == 0 {
        let none = Seq::<char>::empty();
        assert(now =~= Seq::empty());
        assert(pieces(none) =~= seq![none]);
        reveal_with_fuel(kept, 2);
        assert(seq![none].drop_last() =~= Seq::empty());
        assert(parts(none) =~= Seq::empty());
    } else {
        extending_adds(whole, (k - 1) as nat);
        let less = now.drop_last();
        assert(less =~= whole.take(k - 1));
        assert(now.last() == whole[k - 1]);
        joining_the_next(extended(Seq::empty(), less), whole[k - 1]);
        assert(less.push(whole[k - 1]) =~= now);
    }
}

/// A path written cleanly is the same path, and nothing is left to clean in it.
pub proof fn a_clean_path_is_the_same_path(path: Seq<char>)
    ensures
        parts(normal(path)) == parts(path),
        same_path(normal(path), path),
        normal(normal(path)) == normal(path),
{
    parts_can_stand(path);
    extending_adds(parts(path), parts(path).len());
    assert(parts(path).take(parts(path).len() as int) =~= parts(path));
}

/// A path lies within itself, and what lies within a path lies within everything that path lies
/// within. A name below a folder lies within the folder and is not the folder; two names below one
/// folder do not lie within each other, though one may begin with the other.
pub proof fn what_lies_within_a_path(a: Seq<char>, b: Seq<char>, c: Seq<char>, x: Seq<char>, y: Seq<char>)
    ensures
        within(a, a),
        within(a, b) && within(b, c) ==> within(a, c),
        within(a, b) && within(b, a) ==> same_path(a, b),
        plain_name(x) ==> within(joined(a, x), a) && !within(a, joined(a, x)) && file_name_of(
            joined(a, x),
        ) == Some(x),
        plain_name(x) && plain_name(y) && x != y ==> !within(joined(a, x), joined(a, y)),
{
    let p = parts(a);
    let q = parts(b);
    let r = parts(c);
    assert(p.is_prefix_of(p));
    if within(a, b) && within(b, c) {
        assert(r =~= p.take(r.len() as int)) by {
            assert(r =~= q.take(r.len() as int));
            assert(q =~= p.take(q.len() as int));
        }
    }
    if within(a, b) && within(b, a) {
        assert(p =~= q);
    }
    if plain_name(x) {
        joining_a_name(a, x);
        assert(p.is_prefix_of(p.push(PartSpec::Name(x))));
    }
    if plain_name(x) && plain_name(y) && x != y {
        joining_a_name(a, x);
        joining_a_name(a, y);
        let one = p.push(PartSpec::Name(x));
        let other = p.push(PartSpec::Name(y));
        if other.is_prefix_of(one) {
            assert(one[p.len() as int] == other[p.len() as int]);
        }
    }
}

/// The last name of a path begins behind its last separator, or where its lead ends.
proof fn name_start_is(path: Seq<char>, from: int)
    requires
        0 <= from <= path.len(),
    ensures
        from <= name_start(path, from) <= path.len(),
        forall|i: int| name_start(path, from) <= i < path.len() ==> #[trigger] path[i] != '/',
        name_start(path, from) == from || path[name_start(path, from) - 1] == '/',
    decreases path.len(),
{
    if path.len() > from && path.last() != '/' {
        let less = path.drop_last();
        name_start_is(less, from);
        assert forall|i: int| name_start(path, from) <= i < path.len() implies #[trigger] path[i] != '/' by {
            if i < less.len() {
                assert(less[i] == path[i]);
            }
        }
    }
}

/// Cutting an idle name off changes nothing about where a path leads.
proof fn cutting_an_idle_name(path: Seq<char>, from: int)
    requires
        0 <= from < path.len(),
        from == lead(path),
        idle_name(path, from),
    ensures
        parts(cut_name(path, from)) == parts(path),
        lead(cut_name(path, from)) == from,
        from <= cut_name(path, from).len() < path.len(),
{
    let start = name_start(path, from);
    let cut = cut_name(path, from);
    name_start_is(path, from);
    cutting_shortens(path, from);
    let piece = path.skip(start);
    assert(!piece.contains('/')) by {
        if piece.contains('/') {
            let k = choose|k: int| 0 <= k < piece.len() && piece[k] == '/';
            assert(path[start + k] == '/');
        }
    }
    if start < path.len() {
        assert(piece =~= seq!['.']);
    } else {
        assert(piece =~= Seq::empty());
    }
    let none = Seq::<char>::empty();
    assert(pieces(none) =~= seq![none]);
    if start > from {
        assert(path[start - 1] == '/');
        if cut.len() == 0 {
            assert(path[0] == '/');
        }
        assert(path =~= cut.push('/') + piece);
        pieces_after_separator(cut, piece);
        pieces_not_empty(cut);
        assert(pieces(path).drop_last() =~= pieces(cut));
        assert(kept(pieces(path)) == kept(pieces(cut)));
        assert(cut[0] == path[0]);
        if cut.len() > 1 {
            assert(cut[1] == path[1]);
        }
    } else {
        assert(start == from);
        if from == 0 {
            assert(path =~= piece);
        } else {
            if path[0] == '.' {
                assert(path[1] == '/');
            }
            assert(path =~= none.push('/') + piece);
            pieces_after_separator(none, piece);
            assert(cut =~= none.push('/') + none);
            assert(!none.contains('/'));
            pieces_after_separator(none, none);
            assert(pieces(path).drop_last() =~= pieces(none));
            assert(pieces(cut).drop_last() =~= pieces(none));
            assert(kept(pieces(path)) == kept(pieces(none)));
            assert(kept(pieces(cut)) == kept(pieces(none)));
        }
    }
}

proof fn a_bare_path_is_the_same_path(path: Seq<char>, from: int)
    requires
        0 <= from <= path.len(),
        from == lead(path),
    ensures
        parts(bare(path, from)) == parts(path),
    decreases path.len(),
{
    if from < path.len() && idle_name(path, from) {
        cutting_an_idle_name(path, from);
        a_bare_path_is_the_same_path(cut_name(path, from), from);
    }
}

/// The parent of a name below a folder is the folder, however it is spelled. The root and no path
/// at all have none.
pub proof fn the_parent_of_a_name_is_the_folder_above(base: Seq<char>, name: Seq<char>)
    requires
        plain_name(name),
    ensures
        parent_text(joined(base, name)) is Some,
        same_path(parent_text(joined(base, name))->0, base),
        parent_text(seq!['/']) is None,
        parent_text(Seq::empty()) is None,
{
    let path = joined(base, name);
    let from = lead(path);
    assert(name.contains(name[0]));
    assert(!absolute(name));
    if name.len() > 1 {
        assert(name.contains(name[1]));
    } else {
        assert(name[0] != '.') by {
            if name[0] == '.' {
                assert(name =~= seq!['.']);
            }
        }
    }
    name_start_is(path, from);
    let start = name_start(path, from);
    let at = path.len() - name.len();
    assert forall|i: int| at <= i < path.len() implies path[i] != '/' by {
        assert(path[i] == name[i - at]);
        assert(name.contains(name[i - at]));
    }
    if base.len() == 0 {
        assert(path =~= name);
        assert(base =~= Seq::empty());
    } else {
        assert(path[0] == base[0]);
        assert(path[at - 1] == '/');
    }
    assert(start == at);
    assert(!idle_name(path, from)) by {
        if start + 1 == path.len() {
            assert(path[start] == name[0]);
        }
    }
    assert(bare(path, from) == path);
    let cut = cut_name(path, from);
    if base.len() == 0 {
        assert(cut =~= base);
    } else if base.last() != '/' {
        assert(cut =~= base);
        if base.len() > 1 {
            assert(path[1] == base[1]);
        }
    } else if start > from {
        assert(cut =~= base.drop_last());
        let start_of = base.drop_last();
        assert(base =~= start_of.push('/') + Seq::<char>::empty());
        let none = Seq::<char>::empty();
        assert(!none.contains('/'));
        pieces_after_separator(start_of, none);
        pieces_not_empty(start_of);
        assert(pieces(base).drop_last() =~= pieces(start_of));
        assert(kept(pieces(base)) == kept(pieces(start_of)));
        assert(start_of.len() > 0);
        assert(start_of[0] == base[0]);
        assert(parts(start_of) == parts(base));
        if start_of.len() > 1 {
            assert(start_of[1] == path[1]);
        }
    } else {
        assert(cut =~= base);
    }
    assert(lead(cut) == from);
    a_bare_path_is_the_same_path(cut, from);
}

} // verus!
