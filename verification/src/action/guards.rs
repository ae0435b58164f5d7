//! The safety rules: which paths may be deleted at all.
//!
//! Decisions only. What the disk says about a path comes in as plain values: a [`Place`] for
//! the paths the rules are made of, a [`Look`] for a path that is to be judged. Every
//! deletion passes [`Limits::check`] first, and what it returns, not the path as it arrived,
//! is what gets deleted.

use super::model::BlockReason;
use crate::path::{absolute, file_name_of, joined, parts, same_path, within};
use crate::path::{file_name, join, same_paths, starts_with};
use crate::text::{opt_text, texts};
use vstd::prelude::*;

verus! {

/// The names under `~/Library` that stay denied outright, contents and all.
pub open spec fn library_denied() -> Seq<Seq<char>> {
    seq![
        "Accounts"@,
        "Application Scripts"@,
        "Autosave Information"@,
        "Calendars"@,
        "CloudStorage"@,
        "Contacts"@,
        "Cookies"@,
        "IdentityServices"@,
        "Keychains"@,
        "Mail"@,
        "Messages"@,
        "Mobile Documents"@,
        "Photos"@,
        "Preferences"@,
        "Reminders"@,
        "Safari"@,
    ]
}

/// The folders under `~/Library` that are refused as an entry while their contents are not.
pub open spec fn library_shielded() -> Seq<Seq<char>> {
    seq!["Application Support"@, "Containers"@, "Group Containers"@]
}

/// The places of the system that are denied whatever the home folder.
pub open spec fn system_denied() -> Seq<Seq<char>> {
    seq![
        "/"@,
        "/System"@,
        "/usr"@,
        "/bin"@,
        "/sbin"@,
        "/Library"@,
        "/Applications"@,
        "/opt"@,
        "/cores"@,
        "/Users"@,
        "/Volumes"@,
        "/etc"@,
        "/var"@,
        "/tmp"@,
        "/private"@,
    ]
}

/// Every name of a list below `base`.
pub open spec fn all_below(base: Seq<char>, names: Seq<Seq<char>>) -> Seq<Seq<char>> {
    names.map_values(|name: Seq<char>| joined(base, name))
}

/// The standard denylist: the system, the names under the library folder, the home folder.
pub open spec fn denylist_for(home: Option<Seq<char>>) -> Seq<Seq<char>> {
    match home {
        Some(home) => (system_denied() + all_below(joined(home, "Library"@), library_denied())).push(
            home,
        ),
        None => system_denied(),
    }
}

/// The standard shields: the folders of application data, and the library folder itself.
pub open spec fn shields_for(home: Option<Seq<char>>) -> Seq<Seq<char>> {
    match home {
        Some(home) => all_below(joined(home, "Library"@), library_shielded()).push(
            joined(home, "Library"@),
        ),
        None => Seq::empty(),
    }
}

fn push_texts(list: &mut Vec<String>, names: Vec<&str>, base: Option<&str>)
    ensures
        texts(final(list)@) == texts(old(list)@) + Seq::new(
            names@.len(),
            |k: int|
                match base {
                    Some(base) => joined(base@, names@[k]@),
                    None => names@[k]@,
                },
        ),
{
    let ghost before = texts(list@);
    let ghost all = Seq::new(
        names@.len(),
        |k: int|
            match base {
                Some(base) => joined(base@, names@[k]@),
                None => names@[k]@,
            },
    );
    let mut i: usize = 0;
    assert(before + all.take(0) =~= before);
    while i < names.len()
        invariant
            i <= names.len(),
            all == Seq::new(
                names@.len(),
                |k: int|
                    match base {
                        Some(base) => joined(base@, names@[k]@),
                        None => names@[k]@,
                    },
            ),
            texts(list@) == before + all.take(i as int),
        decreases names.len() - i,
    {
        let ghost so_far = list@;
        let text: String = match base {
            Some(base) => join(base, names[i]),
            None => names[i].to_owned(),
        };
        list.push(text);
        assert(texts(list@) =~= texts(so_far).push(all[i as int]));
        assert(before + all.take(i + 1) =~= (before + all.take(i as int)).push(all[i as int]));
        i += 1;
    }
    assert(all.take(all.len() as int) =~= all);
}

/// The paths the standard denylist names.
pub fn standard_denylist(home: Option<&str>) -> (list: Vec<String>)
    ensures
        texts(list@) == denylist_for(
            match home {
                Some(home) => Some(home@),
                None => None,
            },
        ),
{
    let mut list: Vec<String> = Vec::new();
    let system: Vec<&str> = vec![
        "/", "/System", "/usr", "/bin", "/sbin", "/Library", "/Applications", "/opt", "/cores",
        "/Users", "/Volumes", "/etc", "/var", "/tmp", "/private",
    ];
    push_texts(&mut list, system, None);
    assert(texts(list@) =~= system_denied());
    if let Some(home) = home {
        let library: String = join(home, "Library");
        let names: Vec<&str> = vec![
            "Accounts", "Application Scripts", "Autosave Information", "Calendars",
            "CloudStorage", "Contacts", "Cookies", "IdentityServices", "Keychains", "Mail",
            "Messages", "Mobile Documents", "Photos", "Preferences", "Reminders", "Safari",
        ];
        push_texts(&mut list, names, Some(library.as_str()));
        assert(texts(list@) =~= system_denied() + all_below(library@, library_denied()));
        let ghost before = list@;
        list.push(home.to_owned());
        assert(texts(list@) =~= texts(before).push(home@));
    }
    list
}

/// The paths the standard shields name.
pub fn standard_shields(home: Option<&str>) -> (list: Vec<String>)
    ensures
        texts(list@) == shields_for(
            match home {
                Some(home) => Some(home@),
                None => None,
            },
        ),
{
    let mut list: Vec<String> = Vec::new();
    assert(texts(list@) =~= Seq::empty());
    if let Some(home) = home {
        let library: String = join(home, "Library");
        let names: Vec<&str> = vec!["Application Support", "Containers", "Group Containers"];
        push_texts(&mut list, names, Some(library.as_str()));
        assert(texts(list@) =~= all_below(library@, library_shielded()));
        let ghost before = list@;
        let ghost text = library@;
        list.push(library);
        assert(texts(list@) =~= texts(before).push(text));
    }
    list
}

/// A path the rules are made of, with what the disk resolves of it.
#[derive(Debug, Clone)]
pub struct Place {
    /// As it was written.
    pub path: String,
    /// Its parent, fully resolved; `None` when it has none or that cannot be read.
    pub parent: Option<String>,
    /// The path itself, fully resolved; `None` when it cannot be.
    pub resolved: Option<String>,
}

/// A [`Place`] in specifications.
pub struct PlaceSpec {
    pub path: Seq<char>,
    pub parent: Option<Seq<char>>,
    pub resolved: Option<Seq<char>>,
}

impl View for Place {
    type V = PlaceSpec;

    open spec fn view(&self) -> PlaceSpec {
        PlaceSpec {
            path: self.path@,
            parent: opt_text(self.parent),
            resolved: opt_text(self.resolved),
        }
    }
}

/// What several places stand for.
pub open spec fn places(list: Seq<Place>) -> Seq<PlaceSpec> {
    list.map_values(|place: Place| place@)
}

/// The path with only its parent resolved: the form a symlink is judged and deleted by. The
/// path as given when there is no parent, or it cannot be read.
pub open spec fn parent_form(place: PlaceSpec) -> Seq<char> {
    match (file_name_of(place.path), place.parent) {
        (Some(name), Some(parent)) => joined(parent, name),
        _ => place.path,
    }
}

/// Every spelling of a path the rules must recognise: with only its parent resolved, and
/// fully resolved where that is another path.
pub open spec fn forms_of(place: PlaceSpec) -> Seq<Seq<char>> {
    match place.resolved {
        Some(resolved) if !same_path(resolved, parent_form(place)) => seq![
            parent_form(place),
            resolved,
        ],
        _ => seq![parent_form(place)],
    }
}

/// The spellings of the first `k` places.
pub open spec fn all_forms(list: Seq<PlaceSpec>, k: nat) -> Seq<Seq<char>>
    decreases k,
{
    if k == 0 {
        Seq::empty()
    } else {
        all_forms(list, (k - 1) as nat) + forms_of(list[k - 1])
    }
}

/// Those of `forms` that `root` is not under.
pub open spec fn not_containing(forms: Seq<Seq<char>>, root: Seq<char>) -> Seq<Seq<char>>
    decreases forms.len(),
{
    if forms.len() == 0 {
        Seq::empty()
    } else {
        let before = not_containing(forms.drop_last(), root);
        if within(root, forms.last()) {
            before
        } else {
            before.push(forms.last())
        }
    }
}

/// The path with only its parent resolved.
pub fn parent_resolved(place: &Place) -> (form: String)
    ensures
        form@ == parent_form(place@),
{
    match (file_name(&place.path), &place.parent) {
        (Some(name), Some(parent)) => join(parent, &name),
        _ => place.path.clone(),
    }
}

/// Every spelling of a path the rules must recognise.
pub fn forms(place: &Place) -> (list: Vec<String>)
    ensures
        texts(list@) == forms_of(place@),
{
    let mut list: Vec<String> = Vec::new();
    let form: String = parent_resolved(place);
    match &place.resolved {
        Some(resolved) => {
            let other: bool = !same_paths(resolved, &form);
            list.push(form);
            if other {
                list.push(resolved.clone());
            }
        },
        None => {
            list.push(form);
        },
    }
    assert(texts(list@) =~= forms_of(place@));
    list
}

/// Every spelling of every place of a list.
fn forms_of_all(list: &Vec<Place>) -> (found: Vec<String>)
    ensures
        texts(found@) == all_forms(places(list@), list@.len()),
{
    let mut found: Vec<String> = Vec::new();
    let mut i: usize = 0;
    assert(texts(found@) =~= Seq::empty());
    while i < list.len()
        invariant
            i <= list.len(),
            texts(found@) == all_forms(places(list@), i as nat),
        decreases list.len() - i,
    {
        let ghost before = found@;
        let mut more: Vec<String> = forms(&list[i]);
        let ghost added = more@;
        found.append(&mut more);
        assert(texts(found@) =~= texts(before) + texts(added));
        i += 1;
    }
    found
}

/// What [`Limits::check`] decided about one path: the two forms the engine needs.
///
/// They differ in the last component alone, and only when the disk spells it otherwise than
/// the caller did. Keeping both is what lets one entry be deleted by the name it was asked
/// for while the batch reasons about which entries are the same thing.
#[derive(Debug, Clone, PartialEq, Eq)]
pub struct Checked {
    /// The normalized path: absolute, and carrying the caller's own last component. This is
    /// what gets deleted.
    pub path: String,
    /// The same entry in the spelling the rules judged: fully resolved, except for a
    /// symlink, which is judged as written, because deleting one leaves its target alone.
    ///
    /// Never a path to delete. It is the only form in which two entries of one batch can be
    /// compared, and [`drop_nested`] is given these.
    pub judged: String,
}

/// Why the disk did not answer.
#[derive(Debug, Clone, Copy, PartialEq, Eq, Structural)]
pub enum Trouble {
    /// Nothing is there.
    NotFound,
    /// Permissions, a symlink loop, a component that is not a directory.
    Other,
}

/// What is at a normalized path, without following a link there.
#[derive(Debug, Clone)]
pub enum Seen {
    /// A symbolic link.
    Link,
    /// Anything else, with its fully resolved path where that could be had.
    Entry { resolved: Option<String> },
    /// It could not be looked at.
    Unseen(Trouble),
}

/// What the disk says about a path that is to be judged: its parent, fully resolved, and
/// what is at the last component below that.
#[derive(Debug)]
pub struct Look {
    pub parent: Result<String, Trouble>,
    pub seen: Seen,
}

/// A [`Seen`] in specifications.
pub enum SeenSpec {
    Link,
    Entry(Option<Seq<char>>),
    Unseen(Trouble),
}

/// A [`Look`] in specifications.
pub struct LookSpec {
    pub parent: Result<Seq<char>, Trouble>,
    pub seen: SeenSpec,
}

impl View for Look {
    type V = LookSpec;

    open spec fn view(&self) -> LookSpec {
        LookSpec {
            parent: match self.parent {
                Ok(parent) => Ok(parent@),
                Err(trouble) => Err(trouble),
            },
            seen: match self.seen {
                Seen::Link => SeenSpec::Link,
                Seen::Entry { resolved } => SeenSpec::Entry(opt_text(resolved)),
                Seen::Unseen(trouble) => SeenSpec::Unseen(trouble),
            },
        }
    }
}

/// The paths a look resolved are absolute, as every resolved path is.
pub open spec fn look_absolute(look: LookSpec) -> bool {
    &&& look.parent matches Ok(parent) ==> absolute(parent)
    &&& look.seen matches SeenSpec::Entry(Some(resolved)) ==> absolute(resolved)
}

/// The form the rules are applied to: as written for a symlink and for what is not there,
/// fully resolved otherwise.
pub open spec fn judged_form_of(normalized: Seq<char>, seen: SeenSpec) -> Result<Seq<char>, BlockReason> {
    match seen {
        SeenSpec::Link => Ok(normalized),
        SeenSpec::Entry(Some(resolved)) => Ok(resolved),
        SeenSpec::Entry(None) => Ok(normalized),
        SeenSpec::Unseen(Trouble::NotFound) => Ok(normalized),
        SeenSpec::Unseen(Trouble::Other) => Err(BlockReason::Unreadable),
    }
}

/// The form the rules are applied to, which is not always the form that gets deleted. The
/// last component of a normalized path is still spelled the way the caller spelled it, and a
/// rule that trusted that spelling would be a rule in name only.
pub fn judged_form(normalized: &str, seen: &Seen) -> (form: Result<String, BlockReason>)
    ensures
        match (form, judged_form_of(normalized@, (Look { parent: Err(Trouble::Other), seen: *seen })@.seen)) {
            (Ok(form), Ok(expected)) => form@ == expected,
            (Err(reason), Err(expected)) => reason == expected,
            _ => false,
        },
{
    match seen {
        Seen::Link => Ok(normalized.to_owned()),
        Seen::Entry { resolved } => match resolved {
            Some(resolved) => Ok(resolved.clone()),
            None => Ok(normalized.to_owned()),
        },
        Seen::Unseen(trouble) => match trouble {
            Trouble::NotFound => Ok(normalized.to_owned()),
            Trouble::Other => Err(BlockReason::Unreadable),
        },
    }
}

/// Where deletion is allowed and where it is never allowed, in specifications.
pub struct LimitsSpec {
    pub root: Seq<char>,
    pub root_as_given: Seq<char>,
    pub denied: Seq<Seq<char>>,
    pub shielded: Seq<Seq<char>>,
}

/// Whether `path` is one of `bases` or lies below one.
pub open spec fn within_any(path: Seq<char>, bases: Seq<Seq<char>>) -> bool {
    exists|k: int| 0 <= k < bases.len() && within(path, #[trigger] bases[k])
}

/// Whether `path` is one of `others`.
pub open spec fn same_as_any(path: Seq<char>, others: Seq<Seq<char>>) -> bool {
    exists|k: int| 0 <= k < others.len() && same_path(path, #[trigger] others[k])
}

impl LimitsSpec {
    /// The rules on where an entry is, in the order they are asked: the root and what is
    /// above it, outside the root, denied, shielded.
    pub open spec fn refuses(self, judged: Seq<char>) -> Option<BlockReason> {
        if within(self.root, judged) || within(self.root_as_given, judged) {
            Some(BlockReason::IsRoot)
        } else if !within(judged, self.root) {
            Some(BlockReason::OutsideRoots)
        } else if within_any(judged, self.denied) {
            Some(BlockReason::Denylisted)
        } else if same_as_any(judged, self.shielded) {
            Some(BlockReason::Shielded)
        } else {
            None
        }
    }

    /// The verdict on a path: its normalized and its judged form, or why it is refused.
    pub open spec fn checks(self, path: Seq<char>, look: LookSpec) -> Result<
        (Seq<char>, Seq<char>),
        BlockReason,
    > {
        match file_name_of(path) {
            None => Err(BlockReason::Malformed),
            Some(name) => match look.parent {
                Err(Trouble::NotFound) => Err(BlockReason::Missing),
                Err(Trouble::Other) => Err(BlockReason::Unreadable),
                Ok(parent) => match judged_form_of(joined(parent, name), look.seen) {
                    Err(reason) => Err(reason),
                    Ok(judged) => match self.refuses(judged) {
                        Some(reason) => Err(reason),
                        None => Ok((joined(parent, name), judged)),
                    },
                },
            },
        }
    }
}

/// Where deletion is allowed and where it is never allowed.
#[derive(Debug, Clone)]
pub struct Limits {
    /// The scan root, fully resolved: what rule 5 measures every entry against.
    root: String,
    /// The root as the caller spelled it, with only its parent resolved. Differs from
    /// `root` when the root itself is a symlink, and rule 4 has to refuse both spellings.
    root_as_given: String,
    /// Every denied path in both the spellings [`forms`] produces.
    denied: Vec<String>,
    /// Every shielded path in both those spellings: refused as an entry, and as nothing
    /// else.
    shielded: Vec<String>,
}

impl View for Limits {
    type V = LimitsSpec;

    closed spec fn view(&self) -> LimitsSpec {
        LimitsSpec {
            root: self.root@,
            root_as_given: self.root_as_given@,
            denied: texts(self.denied@),
            shielded: texts(self.shielded@),
        }
    }
}

/// The root the rules measure against: fully resolved where that could be had.
pub open spec fn root_of(root: PlaceSpec) -> Seq<char> {
    match root.resolved {
        Some(resolved) => resolved,
        None => parent_form(root),
    }
}

/// The limits of a root and a denylist: a denied form that contains the root is dropped, so
/// pointing the scan root at a denied folder unlocks it.
pub open spec fn limits_of(root: PlaceSpec, denied: Seq<PlaceSpec>, shielded: Seq<PlaceSpec>) -> LimitsSpec {
    LimitsSpec {
        root: root_of(root),
        root_as_given: parent_form(root),
        denied: not_containing(all_forms(denied, denied.len()), root_of(root)),
        shielded: all_forms(shielded, shielded.len()),
    }
}

/// What is known about a path: what `known` says of it, or nothing but the path.
pub open spec fn looked_up(path: Seq<char>, known: Seq<PlaceSpec>) -> PlaceSpec
    decreases known.len(),
{
    if known.len() == 0 {
        PlaceSpec { path, parent: None, resolved: None }
    } else if known[0].path == path {
        known[0]
    } else {
        looked_up(path, known.drop_first())
    }
}

/// What is known about every path of a list.
pub open spec fn all_looked_up(paths: Seq<Seq<char>>, known: Seq<PlaceSpec>) -> Seq<PlaceSpec> {
    paths.map_values(|path: Seq<char>| looked_up(path, known))
}

/// What `known` says about a path.
fn look_up(path: &String, known: &Vec<Place>) -> (place: Place)
    ensures
        place@ == looked_up(path@, places(known@)),
{
    let mut i: usize = 0;
    let ghost all = places(known@);
    assert(all.skip(0) =~= all);
    while i < known.len()
        invariant
            i <= known.len(),
            all == places(known@),
            looked_up(path@, all) == looked_up(path@, all.skip(i as int)),
        decreases known.len() - i,
    {
        assert(all.skip(i as int)[0] == known@[i as int]@);
        assert(all.skip(i as int).drop_first() =~= all.skip(i + 1));
        if known[i].path == *path {
            let found: &Place = &known[i];
            return Place {
                path: found.path.clone(),
                parent: crate::text::copy_opt(&found.parent),
                resolved: crate::text::copy_opt(&found.resolved),
            };
        }
        i += 1;
    }
    Place { path: path.clone(), parent: None, resolved: None }
}

fn look_up_all(paths: &Vec<String>, known: &Vec<Place>) -> (list: Vec<Place>)
    ensures
        places(list@) == all_looked_up(texts(paths@), places(known@)),
{
    let mut list: Vec<Place> = Vec::new();
    let mut i: usize = 0;
    while i < paths.len()
        invariant
            i <= paths.len(),
            list.len() == i,
            forall|k: int|
                0 <= k < i ==> (#[trigger] list@[k])@ == looked_up(paths@[k]@, places(known@)),
        decreases paths.len() - i,
    {
        list.push(look_up(&paths[i], known));
        i += 1;
    }
    assert(places(list@) =~= all_looked_up(texts(paths@), places(known@)));
    list
}

impl Limits {
    /// `root` and `denied` are kept in both the spellings a path can have: with only the
    /// parent resolved, and fully resolved.
    ///
    /// `root` must be absolute, the way a scan produces it: everything starts with the empty
    /// path, so an empty root would allow every path on the machine.
    ///
    /// A denied entry that contains the root is dropped. That is the policy and not an
    /// accident: a root the user named is a place they did mean to visit, and `/` is the
    /// ancestor of everything.
    pub fn new(root: Place, denied: Vec<Place>) -> (limits: Limits)
        requires
            absolute(root_of(root@)),
        ensures
            limits@ == limits_of(root@, places(denied@), Seq::empty()),
    {
        let root_as_given: String = parent_resolved(&root);
        let resolved: String = match &root.resolved {
            Some(resolved) => resolved.clone(),
            None => root_as_given.clone(),
        };
        let all: Vec<String> = forms_of_all(&denied);
        let mut kept: Vec<String> = Vec::new();
        let mut i: usize = 0;
        let ghost forms = texts(all@);
        assert(forms.take(0) =~= Seq::empty());
        assert(texts(kept@) =~= Seq::empty());
        while i < all.len()
            invariant
                i <= all.len(),
                forms == texts(all@),
                texts(kept@) == not_containing(forms.take(i as int), resolved@),
            decreases all.len() - i,
        {
            let ghost before = kept@;
            assert(forms.take(i + 1).drop_last() =~= forms.take(i as int));
            assert(forms.take(i + 1).last() == all@[i as int]@);
            // A form the resolved root is not under can never swallow it. What makes
            // dropping safe is rule 4 running first and testing both root spellings.
            if !starts_with(&resolved, &all[i]) {
                kept.push(all[i].clone());
                assert(texts(kept@) =~= texts(before).push(all@[i as int]@));
            }
            i += 1;
        }
        assert(forms.take(forms.len() as int) =~= forms);
        let limits = Limits { root: resolved, root_as_given, denied: kept, shielded: Vec::new() };
        assert(texts(limits.shielded@) =~= Seq::empty());
        assert(all_forms(Seq::empty(), 0) =~= Seq::<Seq<char>>::empty());
        limits
    }

    /// Adds paths that are refused as an entry while everything inside them is judged on
    /// its own.
    pub fn shielding(self, shielded: Vec<Place>) -> (limits: Limits)
        ensures
            limits@ == (LimitsSpec {
                shielded: all_forms(places(shielded@), shielded@.len()),
                ..self@
            }),
    {
        let mut limits: Limits = self;
        limits.shielded = forms_of_all(&shielded);
        limits
    }

    /// The root plus the standard denylist and the standard shields, for a home folder;
    /// `known` is what the disk resolves of their paths ([`standard_denylist`],
    /// [`standard_shields`]). A path it says nothing about keeps the spelling it has, and
    /// then matches only what resolves to exactly that.
    pub fn for_scan_root(root: Place, home: Option<&str>, known: &Vec<Place>) -> (limits: Limits)
        requires
            absolute(root_of(root@)),
        ensures
            limits@ == limits_of(
                root@,
                all_looked_up(
                    denylist_for(
                        match home {
                            Some(home) => Some(home@),
                            None => None,
                        },
                    ),
                    places(known@),
                ),
                all_looked_up(
                    shields_for(
                        match home {
                            Some(home) => Some(home@),
                            None => None,
                        },
                    ),
                    places(known@),
                ),
            ),
    {
        let denied: Vec<Place> = look_up_all(&standard_denylist(home), known);
        let shielded: Vec<Place> = look_up_all(&standard_shields(home), known);
        Limits::new(root, denied).shielding(shielded)
    }

    /// Normalizes `path` and applies every rule. [`Checked::path`] is what the engine
    /// deletes, the caller's own last component, never the target of a link, and
    /// [`Checked::judged`] is the form the rules were applied to.
    pub fn check(&self, path: &str, look: &Look) -> (checked: Result<Checked, BlockReason>)
        ensures
            match (checked, self@.checks(path@, look@)) {
                (Ok(checked), Ok(expected)) => checked.path@ == expected.0 && checked.judged@
                    == expected.1,
                (Err(reason), Err(expected)) => reason == expected,
                _ => false,
            },
    {
        // 1. No last component to speak of: this is `/`, or a path ending in `..`. Both
        //    name something other than they appear to.
        let name: String = match file_name(path) {
            Some(name) => name,
            None => {
                return Err(BlockReason::Malformed);
            },
        };
        // 2. Only the parent is resolved. Not every failure means the entry is gone.
        let parent: &String = match &look.parent {
            Ok(parent) => parent,
            Err(trouble) => {
                return match trouble {
                    Trouble::NotFound => Err(BlockReason::Missing),
                    Trouble::Other => Err(BlockReason::Unreadable),
                };
            },
        };
        // 3. Resolving the whole path would follow a symlink to its target and delete that
        //    instead; resolving the parent alone is what stops a symlinked directory in the
        //    middle of the path from smuggling the entry elsewhere.
        let normalized: String = join(parent, &name);
        let judged: String = match judged_form(&normalized, &look.seen) {
            Ok(judged) => judged,
            Err(reason) => {
                return Err(reason);
            },
        };
        // 4. The root itself and every ancestor of it, in both spellings.
        if starts_with(&self.root, &judged) || starts_with(&self.root_as_given, &judged) {
            return Err(BlockReason::IsRoot);
        }
        // 5. Component-wise, so `/h/ab` is not inside `/h/a`.
        if !starts_with(&judged, &self.root) {
            return Err(BlockReason::OutsideRoots);
        }
        // 6. The denied entry itself and everything below it.
        if starts_with_any(&judged, &self.denied) {
            return Err(BlockReason::Denylisted);
        }
        // 7. A shielded entry, and only the entry. Rule 6 runs first, because a denied
        //    answer has to win inside a shield it lives in.
        if is_any(&judged, &self.shielded) {
            return Err(BlockReason::Shielded);
        }
        Ok(Checked { path: normalized, judged })
    }
}

fn starts_with_any(path: &str, bases: &Vec<String>) -> (r: bool)
    ensures
        r == within_any(path@, texts(bases@)),
{
    let mut i: usize = 0;
    while i < bases.len()
        invariant
            i <= bases.len(),
            forall|k: int| 0 <= k < i ==> !within(path@, #[trigger] texts(bases@)[k]),
        decreases bases.len() - i,
    {
        if starts_with(path, &bases[i]) {
            assert(within(path@, texts(bases@)[i as int]));
            return true;
        }
        i += 1;
    }
    false
}

fn is_any(path: &str, others: &Vec<String>) -> (r: bool)
    ensures
        r == same_as_any(path@, texts(others@)),
{
    let mut i: usize = 0;
    while i < others.len()
        invariant
            i <= others.len(),
            forall|k: int| 0 <= k < i ==> !same_path(path@, #[trigger] texts(others@)[k]),
        decreases others.len() - i,
    {
        if same_paths(path, &others[i]) {
            assert(same_path(path@, texts(others@)[i as int]));
            return true;
        }
        i += 1;
    }
    false
}

/// Whether path `j` of a batch stands for path `i` as well: it contains it, or it is the
/// same path and came first.
pub open spec fn swallows(paths: Seq<Seq<char>>, j: int, i: int) -> bool {
    &&& 0 <= j < paths.len()
    &&& j != i
    &&& within(paths[i], paths[j])
    &&& !same_path(paths[j], paths[i]) || j < i
}

/// Whether another path of the batch stands for path `i`.
pub open spec fn swallowed(paths: Seq<Seq<char>>, i: int) -> bool {
    exists|j: int| #[trigger] swallows(paths, j, i)
}

/// Per entry, in input order: `false` when another entry of the batch contains it.
///
/// Selecting a directory and something inside it costs one click in a tree view. Without
/// this the descendant's bytes would be counted twice and its deletion would fail once the
/// ancestor is gone. Of several copies of one path the first survives.
///
/// Takes the [`Checked::judged`] forms [`Limits::check`] returned: two spellings of one
/// directory would otherwise look like two entries.
pub fn drop_nested(paths: &Vec<String>) -> (keep: Vec<bool>)
    requires
        forall|i: int| 0 <= i < paths@.len() ==> absolute((#[trigger] paths@[i])@),
    ensures
        keep@.len() == paths@.len(),
        forall|i: int| 0 <= i < paths@.len() ==> #[trigger] keep@[i] == !swallowed(texts(paths@), i),
{
    let ghost all = texts(paths@);
    let mut keep: Vec<bool> = Vec::new();
    let mut i: usize = 0;
    while i < paths.len()
        invariant
            i <= paths.len(),
            all == texts(paths@),
            keep@.len() == i,
            forall|k: int| 0 <= k < i ==> #[trigger] keep@[k] == !swallowed(all, k),
        decreases paths.len() - i,
    {
        let mut contained: bool = false;
        let mut j: usize = 0;
        while j < paths.len()
            invariant
                i < paths.len(),
                j <= paths.len(),
                all == texts(paths@),
                contained == exists|k: int| k < j && #[trigger] swallows(all, k, i as int),
            decreases paths.len() - j,
        {
            // A strict ancestor always wins; between equals, the earlier one does.
            let here: bool = i != j && starts_with(&paths[i], &paths[j]) && (!same_paths(
                &paths[j],
                &paths[i],
            ) || j < i);
            assert(here == swallows(all, j as int, i as int));
            if here {
                contained = true;
            }
            proof {
                if contained && !here {
                    let k = choose|k: int| k < j && #[trigger] swallows(all, k, i as int);
                    assert(swallows(all, k, i as int) && k < j + 1);
                }
            }
            j += 1;
        }
        keep.push(!contained);
        i += 1;
    }
    keep
}

/// What the guards allow is inside the root, below it, not in a denied place and no shielded
/// folder.
pub proof fn what_is_allowed_is_safe(limits: LimitsSpec, path: Seq<char>, look: LookSpec)
    requires
        limits.checks(path, look) is Ok,
    ensures
        ({
            let judged = limits.checks(path, look)->Ok_0.1;
            &&& within(judged, limits.root)
            &&& !within(limits.root, judged)
            &&& !within(limits.root_as_given, judged)
            &&& forall|k: int| 0 <= k < limits.denied.len() ==> !within(judged, #[trigger] limits.denied[k])
            &&& forall|k: int|
                0 <= k < limits.shielded.len() ==> !same_path(judged, #[trigger] limits.shielded[k])
        }),
{
}

/// Every path of a batch is kept or lies within one that is kept.
pub proof fn nothing_is_dropped_for_nothing(paths: Seq<Seq<char>>, i: int)
    requires
        0 <= i < paths.len(),
    ensures
        exists|j: int|
            0 <= j < paths.len() && !#[trigger] swallowed(paths, j) && within(paths[i], paths[j]),
    decreases parts(paths[i]).len(), i,
{
    if !swallowed(paths, i) {
        assert(within(paths[i], paths[i])) by {
            let whole = parts(paths[i]);
            assert(whole.is_prefix_of(whole));
        }
    } else {
        let j = choose|j: int| #[trigger] swallows(paths, j, i);
        let a = parts(paths[i]);
        let b = parts(paths[j]);
        assert(b.is_prefix_of(a));
        if b.len() == a.len() {
            assert(a =~= b);
        }
        nothing_is_dropped_for_nothing(paths, j);
        let k = choose|k: int|
            0 <= k < paths.len() && !#[trigger] swallowed(paths, k) && within(paths[j], paths[k]);
        let c = parts(paths[k]);
        assert(c =~= a.take(c.len() as int)) by {
            assert(c =~= b.take(c.len() as int));
            assert(b =~= a.take(b.len() as int));
        }
        assert(within(paths[i], paths[k]));
    }
}

/// No path that is kept lies within another one that is kept.
pub proof fn what_is_kept_is_not_nested(paths: Seq<Seq<char>>, i: int, j: int)
    requires
        0 <= i < paths.len(),
        0 <= j < paths.len(),
        i != j,
        !swallowed(paths, i),
        !swallowed(paths, j),
    ensures
        !within(paths[i], paths[j]),
{
    if within(paths[i], paths[j]) {
        if same_path(paths[j], paths[i]) {
            if j < i {
                assert(swallows(paths, j, i));
            } else {
                assert(within(paths[j], paths[i]));
                assert(swallows(paths, i, j));
            }
        } else {
            assert(swallows(paths, j, i));
        }
    }
}

} // verus!
