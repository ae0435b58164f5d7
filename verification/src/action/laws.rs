//! What the guards promise of every root and every home folder.

use super::engine::{carries_out, covered, covers, outcome_of, previews, shown_as, verdicts_on};
use super::engine::{EntryLook, EntryRun, SystemErrorKind};
use super::guards::{all_below, all_forms, all_looked_up, denylist_for, forms_of, library_denied};
use super::guards::{library_shielded, limits_of, looked_up, not_containing, parent_form, root_of};
use super::guards::{same_as_any, shields_for, system_denied, within_any, LimitsSpec, LookSpec};
use super::guards::{PlaceSpec, SeenSpec, Trouble};
use super::log::{LogEntry, LogResult};
use super::model::{freed_bytes, ready_bytes, BlockReason, EntryOutcome, EntryResultSpec};
use super::model::{EntryStatus, Mode, Outcome, Plan, Preview, PreviewEntry, Timestamp};
use crate::order::total;
use crate::path::{absolute, file_name_of, joined, joining_a_name, parts, plain_name, same_path};
use crate::path::within;
use crate::scan::tree::NodeKind;
use crate::text::opt_text;
use vstd::prelude::*;

verus! {

/// A folder of the library folder of a home folder.
pub open spec fn in_library(home: Seq<char>, name: Seq<char>) -> Seq<char> {
    joined(joined(home, "Library"@), name)
}

/// The standard denylist names every place of the system, the folders of the library that hold
/// what is private, and the home folder itself. Without a home folder it names the system alone.
pub proof fn the_denylist_names_what_is_private(home: Seq<char>)
    ensures
        denylist_for(Some(home)).contains(in_library(home, "Accounts"@)),
        denylist_for(Some(home)).contains(in_library(home, "Application Scripts"@)),
        denylist_for(Some(home)).contains(in_library(home, "Autosave Information"@)),
        denylist_for(Some(home)).contains(in_library(home, "Calendars"@)),
        denylist_for(Some(home)).contains(in_library(home, "CloudStorage"@)),
        denylist_for(Some(home)).contains(in_library(home, "Contacts"@)),
        denylist_for(Some(home)).contains(in_library(home, "Cookies"@)),
        denylist_for(Some(home)).contains(in_library(home, "IdentityServices"@)),
        denylist_for(Some(home)).contains(in_library(home, "Keychains"@)),
        denylist_for(Some(home)).contains(in_library(home, "Mail"@)),
        denylist_for(Some(home)).contains(in_library(home, "Messages"@)),
        denylist_for(Some(home)).contains(in_library(home, "Mobile Documents"@)),
        denylist_for(Some(home)).contains(in_library(home, "Photos"@)),
        denylist_for(Some(home)).contains(in_library(home, "Preferences"@)),
        denylist_for(Some(home)).contains(in_library(home, "Reminders"@)),
        denylist_for(Some(home)).contains(in_library(home, "Safari"@)),
        denylist_for(Some(home)).contains("/"@),
        denylist_for(None).contains("/"@),
        denylist_for(Some(home)).contains("/System"@),
        denylist_for(None).contains("/System"@),
        denylist_for(Some(home)).contains("/usr"@),
        denylist_for(None).contains("/usr"@),
        denylist_for(Some(home)).contains("/bin"@),
        denylist_for(None).contains("/bin"@),
        denylist_for(Some(home)).contains("/sbin"@),
        denylist_for(None).contains("/sbin"@),
        denylist_for(Some(home)).contains("/Library"@),
        denylist_for(None).contains("/Library"@),
        denylist_for(Some(home)).contains("/Applications"@),
        denylist_for(None).contains("/Applications"@),
        denylist_for(Some(home)).contains("/opt"@),
        denylist_for(None).contains("/opt"@),
        denylist_for(Some(home)).contains("/cores"@),
        denylist_for(None).contains("/cores"@),
        denylist_for(Some(home)).contains("/Users"@),
        denylist_for(None).contains("/Users"@),
        denylist_for(Some(home)).contains("/Volumes"@),
        denylist_for(None).contains("/Volumes"@),
        denylist_for(Some(home)).contains("/etc"@),
        denylist_for(None).contains("/etc"@),
        denylist_for(Some(home)).contains("/var"@),
        denylist_for(None).contains("/var"@),
        denylist_for(Some(home)).contains("/tmp"@),
        denylist_for(None).contains("/tmp"@),
        denylist_for(Some(home)).contains("/private"@),
        denylist_for(None).contains("/private"@),
        denylist_for(Some(home)).contains(home),
        denylist_for(Some(home)).len() == 32,
        denylist_for(None).len() == 15,
{
    let list = denylist_for(Some(home));
    let below = all_below(joined(home, "Library"@), library_denied());
    assert(below[0] == in_library(home, "Accounts"@));
    assert(list[15] == below[0]);
    assert(below[1] == in_library(home, "Application Scripts"@));
    assert(list[16] == below[1]);
    assert(below[2] == in_library(home, "Autosave Information"@));
    assert(list[17] == below[2]);
    assert(below[3] == in_library(home, "Calendars"@));
    assert(list[18] == below[3]);
    assert(below[4] == in_library(home, "CloudStorage"@));
    assert(list[19] == below[4]);
    assert(below[5] == in_library(home, "Contacts"@));
    assert(list[20] == below[5]);
    assert(below[6] == in_library(home, "Cookies"@));
    assert(list[21] == below[6]);
    assert(below[7] == in_library(home, "IdentityServices"@));
    assert(list[22] == below[7]);
    assert(below[8] == in_library(home, "Keychains"@));
    assert(list[23] == below[8]);
    assert(below[9] == in_library(home, "Mail"@));
    assert(list[24] == below[9]);
    assert(below[10] == in_library(home, "Messages"@));
    assert(list[25] == below[10]);
    assert(below[11] == in_library(home, "Mobile Documents"@));
    assert(list[26] == below[11]);
    assert(below[12] == in_library(home, "Photos"@));
    assert(list[27] == below[12]);
    assert(below[13] == in_library(home, "Preferences"@));
    assert(list[28] == below[13]);
    assert(below[14] == in_library(home, "Reminders"@));
    assert(list[29] == below[14]);
    assert(below[15] == in_library(home, "Safari"@));
    assert(list[30] == below[15]);
    assert(list[0] == "/"@ && denylist_for(None)[0] == "/"@);
    assert(list[1] == "/System"@ && denylist_for(None)[1] == "/System"@);
    assert(list[2] == "/usr"@ && denylist_for(None)[2] == "/usr"@);
    assert(list[3] == "/bin"@ && denylist_for(None)[3] == "/bin"@);
    assert(list[4] == "/sbin"@ && denylist_for(None)[4] == "/sbin"@);
    assert(list[5] == "/Library"@ && denylist_for(None)[5] == "/Library"@);
    assert(list[6] == "/Applications"@ && denylist_for(None)[6] == "/Applications"@);
    assert(list[7] == "/opt"@ && denylist_for(None)[7] == "/opt"@);
    assert(list[8] == "/cores"@ && denylist_for(None)[8] == "/cores"@);
    assert(list[9] == "/Users"@ && denylist_for(None)[9] == "/Users"@);
    assert(list[10] == "/Volumes"@ && denylist_for(None)[10] == "/Volumes"@);
    assert(list[11] == "/etc"@ && denylist_for(None)[11] == "/etc"@);
    assert(list[12] == "/var"@ && denylist_for(None)[12] == "/var"@);
    assert(list[13] == "/tmp"@ && denylist_for(None)[13] == "/tmp"@);
    assert(list[14] == "/private"@ && denylist_for(None)[14] == "/private"@);
    assert(list[31] == home);
}

/// The standard shields are the library folder and the three folders of it that hold what the
/// programs keep. Without a home folder there are none.
pub proof fn the_shields_are_the_library_and_three_of_its_folders(home: Seq<char>)
    ensures
        shields_for(Some(home)).contains(in_library(home, "Application Support"@)),
        shields_for(Some(home)).contains(in_library(home, "Containers"@)),
        shields_for(Some(home)).contains(in_library(home, "Group Containers"@)),
        shields_for(Some(home)).contains(joined(home, "Library"@)),
        shields_for(Some(home)).len() == 4,
        shields_for(None).len() == 0,
{
    let list = shields_for(Some(home));
    let below = all_below(joined(home, "Library"@), library_shielded());
    assert(below[0] == in_library(home, "Application Support"@));
    assert(below[1] == in_library(home, "Containers"@));
    assert(below[2] == in_library(home, "Group Containers"@));
    assert(list[0] == below[0] && list[1] == below[1] && list[2] == below[2]);
    assert(list[3] == joined(home, "Library"@));
}

/// Whether a path lies in one of the folders of the library that hold what is private.
pub open spec fn private(home: Seq<char>, path: Seq<char>) -> bool {
    ||| within(path, in_library(home, "Accounts"@))
    ||| within(path, in_library(home, "Application Scripts"@))
    ||| within(path, in_library(home, "Autosave Information"@))
    ||| within(path, in_library(home, "Calendars"@))
    ||| within(path, in_library(home, "CloudStorage"@))
    ||| within(path, in_library(home, "Contacts"@))
    ||| within(path, in_library(home, "Cookies"@))
    ||| within(path, in_library(home, "IdentityServices"@))
    ||| within(path, in_library(home, "Keychains"@))
    ||| within(path, in_library(home, "Mail"@))
    ||| within(path, in_library(home, "Messages"@))
    ||| within(path, in_library(home, "Mobile Documents"@))
    ||| within(path, in_library(home, "Photos"@))
    ||| within(path, in_library(home, "Preferences"@))
    ||| within(path, in_library(home, "Reminders"@))
    ||| within(path, in_library(home, "Safari"@))
}

/// Whether a path is the library folder, or one of the folders in it that are kept while what
/// is in them may go.
pub open spec fn shield(home: Seq<char>, path: Seq<char>) -> bool {
    ||| same_path(path, joined(home, "Library"@))
    ||| same_path(path, in_library(home, "Application Support"@))
    ||| same_path(path, in_library(home, "Containers"@))
    ||| same_path(path, in_library(home, "Group Containers"@))
}

/// Whether nothing on the way to a path is a link, as far as the disk was asked: its parent and
/// the path itself resolve to what they say.
pub open spec fn resolves_to_itself(path: Seq<char>, known: Seq<PlaceSpec>) -> bool {
    forall|k: int|
        0 <= k < known.len() && (#[trigger] known[k]).path == path ==> {
            &&& known[k].parent is Some && file_name_of(path) is Some ==> same_path(
                joined(known[k].parent->0, file_name_of(path)->0),
                path,
            )
            &&& known[k].resolved is Some ==> same_path(known[k].resolved->0, path)
        }
}

proof fn looking_up_finds(path: Seq<char>, known: Seq<PlaceSpec>)
    ensures
        looked_up(path, known).path == path,
        looked_up(path, known) == (PlaceSpec { path, parent: None, resolved: None }) || exists|k: int|
            0 <= k < known.len() && #[trigger] known[k] == looked_up(path, known),
    decreases known.len(),
{
    if known.len() > 0 && known[0].path != path {
        looking_up_finds(path, known.drop_first());
        if looked_up(path, known) != (PlaceSpec { path, parent: None, resolved: None }) {
            let rest = known.drop_first();
            let k = choose|k: int| 0 <= k < rest.len() && #[trigger] rest[k] == looked_up(path, rest);
            assert(known[k + 1] == looked_up(path, known));
        }
    }
}

proof fn forms_are_the_path(path: Seq<char>, known: Seq<PlaceSpec>)
    requires
        resolves_to_itself(path, known),
    ensures
        forms_of(looked_up(path, known)).len() > 0,
        forall|j: int|
            0 <= j < forms_of(looked_up(path, known)).len() ==> same_path(
                #[trigger] forms_of(looked_up(path, known))[j],
                path,
            ),
{
    looking_up_finds(path, known);
    let place = looked_up(path, known);
    if exists|k: int| 0 <= k < known.len() && #[trigger] known[k] == place {
        let k = choose|k: int| 0 <= k < known.len() && #[trigger] known[k] == place;
        assert(known[k].path == path);
    }
}

proof fn a_form_is_collected(list: Seq<PlaceSpec>, k: nat, i: int, j: int)
    requires
        0 <= i < k <= list.len(),
        0 <= j < forms_of(list[i]).len(),
    ensures
        all_forms(list, k).contains(forms_of(list[i])[j]),
    decreases k,
{
    let before = all_forms(list, (k - 1) as nat);
    let form = forms_of(list[i])[j];
    if i == k - 1 {
        assert(all_forms(list, k)[before.len() + j] == form);
    } else {
        a_form_is_collected(list, (k - 1) as nat, i, j);
        let at = choose|at: int| 0 <= at < before.len() && before[at] == form;
        assert(all_forms(list, k)[at] == form);
    }
}

proof fn a_collected_form_is_one(list: Seq<PlaceSpec>, k: nat, at: int) -> (found: (int, int))
    requires
        k <= list.len(),
        0 <= at < all_forms(list, k).len(),
    ensures
        0 <= found.0 < k,
        0 <= found.1 < forms_of(list[found.0]).len(),
        forms_of(list[found.0])[found.1] == all_forms(list, k)[at],
    decreases k,
{
    let before = all_forms(list, (k - 1) as nat);
    if at < before.len() {
        a_collected_form_is_one(list, (k - 1) as nat, at)
    } else {
        (k - 1, at - before.len())
    }
}

proof fn what_is_not_above_the_root_stays(forms: Seq<Seq<char>>, root: Seq<char>, form: Seq<char>)
    ensures
        not_containing(forms, root).contains(form) == (forms.contains(form) && !within(root, form)),
    decreases forms.len(),
{
    if forms.len() == 0 {
        assert(!forms.contains(form));
    } else {
        what_is_not_above_the_root_stays(forms.drop_last(), root, form);
        let before = not_containing(forms.drop_last(), root);
        let now = not_containing(forms, root);
        assert(forms.contains(form) == (forms.drop_last().contains(form) || forms.last() == form)) by {
            if forms.contains(form) {
                let at = choose|at: int| 0 <= at < forms.len() && forms[at] == form;
                if at < forms.len() - 1 {
                    assert(forms.drop_last()[at] == form);
                }
            }
            if forms.drop_last().contains(form) {
                let at = choose|at: int|
                    0 <= at < forms.drop_last().len() && forms.drop_last()[at] == form;
                assert(forms[at] == form);
            }
        }
        if !within(root, forms.last()) {
            assert(now[before.len() as int] == forms.last());
            assert(now.contains(form) == (before.contains(form) || forms.last() == form)) by {
                if now.contains(form) {
                    let at = choose|at: int| 0 <= at < now.len() && now[at] == form;
                    if at < before.len() {
                        assert(before[at] == form);
                    }
                }
                if before.contains(form) {
                    let at = choose|at: int| 0 <= at < before.len() && before[at] == form;
                    assert(now[at] == form);
                }
            }
        }
    }
}

/// A denied place refuses every path within it, in either spelling: with its parent resolved,
/// and fully resolved. The one exception is a spelling the root itself lies under.
pub proof fn a_denied_place_refuses_what_is_in_it(
    root: PlaceSpec,
    denied: Seq<PlaceSpec>,
    shielded: Seq<PlaceSpec>,
    i: int,
    form: Seq<char>,
    judged: Seq<char>,
)
    requires
        0 <= i < denied.len(),
        ({
            ||| denied[i].resolved == Some(form)
            ||| denied[i].parent is Some && file_name_of(denied[i].path) is Some && form == joined(
                denied[i].parent->0,
                file_name_of(denied[i].path)->0,
            )
            ||| denied[i].parent is None && form == denied[i].path
        }),
        !within(root_of(root), form),
        within(judged, form),
        within(judged, root_of(root)),
        !within(root_of(root), judged),
        !within(parent_form(root), judged),
    ensures
        limits_of(root, denied, shielded).refuses(judged) == Some(BlockReason::Denylisted),
{
    let limits = limits_of(root, denied, shielded);
    let all = all_forms(denied, denied.len());
    let forms = forms_of(denied[i]);
    let j: int = if same_path(form, parent_form(denied[i])) {
        0
    } else {
        1
    };
    assert(same_path(forms[j], form));
    a_form_is_collected(denied, denied.len(), i, j);
    what_is_not_above_the_root_stays(all, root_of(root), forms[j]);
    let at = choose|at: int| 0 <= at < limits.denied.len() && limits.denied[at] == forms[j];
    assert(within(judged, limits.denied[at]));
}

proof fn the_system_is_near_the_top()
    ensures
        forall|i: int| 0 <= i < system_denied().len() ==> parts(#[trigger] system_denied()[i]).len() <= 2,
{
    reveal_strlit("/");
    let top = "/"@;
    assert(top =~= seq!['/']);
    assert(parts(top).len() == 1) by {
        reveal_with_fuel(crate::path::pieces, 3);
        reveal_with_fuel(crate::path::kept, 4);
        assert(top.drop_last() =~= Seq::empty());
        let none = Seq::<char>::empty();
        assert(crate::path::pieces(none) =~= seq![none]);
        assert(crate::path::pieces(top) =~= seq![none, none]);
        let two = seq![none, none];
        assert(two.drop_last() =~= seq![none]);
        assert(seq![none].drop_last() =~= Seq::empty());
    }
    assert(parts("/System"@).len() == 2) by {
        reveal_strlit("/System");
        reveal_strlit("System");
        near_the_top("/System"@, "System"@);
    }
    assert(parts("/usr"@).len() == 2) by {
        reveal_strlit("/usr");
        reveal_strlit("usr");
        near_the_top("/usr"@, "usr"@);
    }
    assert(parts("/bin"@).len() == 2) by {
        reveal_strlit("/bin");
        reveal_strlit("bin");
        near_the_top("/bin"@, "bin"@);
    }
    assert(parts("/sbin"@).len() == 2) by {
        reveal_strlit("/sbin");
        reveal_strlit("sbin");
        near_the_top("/sbin"@, "sbin"@);
    }
    assert(parts("/Library"@).len() == 2) by {
        reveal_strlit("/Library");
        reveal_strlit("Library");
        near_the_top("/Library"@, "Library"@);
    }
    assert(parts("/Applications"@).len() == 2) by {
        reveal_strlit("/Applications");
        reveal_strlit("Applications");
        near_the_top("/Applications"@, "Applications"@);
    }
    assert(parts("/opt"@).len() == 2) by {
        reveal_strlit("/opt");
        reveal_strlit("opt");
        near_the_top("/opt"@, "opt"@);
    }
    assert(parts("/cores"@).len() == 2) by {
        reveal_strlit("/cores");
        reveal_strlit("cores");
        near_the_top("/cores"@, "cores"@);
    }
    assert(parts("/Users"@).len() == 2) by {
        reveal_strlit("/Users");
        reveal_strlit("Users");
        near_the_top("/Users"@, "Users"@);
    }
    assert(parts("/Volumes"@).len() == 2) by {
        reveal_strlit("/Volumes");
        reveal_strlit("Volumes");
        near_the_top("/Volumes"@, "Volumes"@);
    }
    assert(parts("/etc"@).len() == 2) by {
        reveal_strlit("/etc");
        reveal_strlit("etc");
        near_the_top("/etc"@, "etc"@);
    }
    assert(parts("/var"@).len() == 2) by {
        reveal_strlit("/var");
        reveal_strlit("var");
        near_the_top("/var"@, "var"@);
    }
    assert(parts("/tmp"@).len() == 2) by {
        reveal_strlit("/tmp");
        reveal_strlit("tmp");
        near_the_top("/tmp"@, "tmp"@);
    }
    assert(parts("/private"@).len() == 2) by {
        reveal_strlit("/private");
        reveal_strlit("private");
        near_the_top("/private"@, "private"@);
    }
    let list = system_denied();
    assert(list[0] == "/"@);
    assert(list[1] == "/System"@);
    assert(list[2] == "/usr"@);
    assert(list[3] == "/bin"@);
    assert(list[4] == "/sbin"@);
    assert(list[5] == "/Library"@);
    assert(list[6] == "/Applications"@);
    assert(list[7] == "/opt"@);
    assert(list[8] == "/cores"@);
    assert(list[9] == "/Users"@);
    assert(list[10] == "/Volumes"@);
    assert(list[11] == "/etc"@);
    assert(list[12] == "/var"@);
    assert(list[13] == "/tmp"@);
    assert(list[14] == "/private"@);
}

proof fn near_the_top(path: Seq<char>, name: Seq<char>)
    requires
        path =~= seq!['/'] + name,
        plain_name(name),
        parts(seq!['/']).len() == 1,
    ensures
        parts(path).len() == 2,
{
    let top = seq!['/'];
    assert(name.contains(name[0]));
    assert(joined(top, name) =~= path);
    joining_a_name(top, name);
}

proof fn in_library_is_two_below(home: Seq<char>, name: Seq<char>)
    requires
        plain_name(name),
    ensures
        parts(in_library(home, name)).len() == parts(home).len() + 2,
        parts(joined(home, "Library"@)).len() == parts(home).len() + 1,
{
    reveal_strlit("Library");
    assert(plain_name("Library"@));
    joining_a_name(home, "Library"@);
    joining_a_name(joined(home, "Library"@), name);
}

proof fn the_private_folders_are_deep(home: Seq<char>)
    ensures
        forall|i: int|
            0 <= i < library_denied().len() ==> parts(
                in_library(home, #[trigger] library_denied()[i]),
            ).len() == parts(home).len() + 2,
{
    let list = library_denied();
    assert(parts(in_library(home, list[0])).len() == parts(home).len() + 2) by {
        reveal_strlit("Accounts");
        let name = "Accounts"@;
        assert(name.len() == 8);
        assert(forall|k: int| 0 <= k < name.len() ==> name[k] != '/');
        in_library_is_two_below(home, name);
    }
    assert(parts(in_library(home, list[1])).len() == parts(home).len() + 2) by {
        reveal_strlit("Application Scripts");
        let name = "Application Scripts"@;
        assert(name.len() == 19);
        assert(forall|k: int| 0 <= k < name.len() ==> name[k] != '/');
        in_library_is_two_below(home, name);
    }
    assert(parts(in_library(home, list[2])).len() == parts(home).len() + 2) by {
        reveal_strlit("Autosave Information");
        let name = "Autosave Information"@;
        assert(name.len() == 20);
        assert(forall|k: int| 0 <= k < name.len() ==> name[k] != '/');
        in_library_is_two_below(home, name);
    }
    assert(parts(in_library(home, list[3])).len() == parts(home).len() + 2) by {
        reveal_strlit("Calendars");
        let name = "Calendars"@;
        assert(name.len() == 9);
        assert(forall|k: int| 0 <= k < name.len() ==> name[k] != '/');
        in_library_is_two_below(home, name);
    }
    assert(parts(in_library(home, list[4])).len() == parts(home).len() + 2) by {
        reveal_strlit("CloudStorage");
        let name = "CloudStorage"@;
        assert(name.len() == 12);
        assert(forall|k: int| 0 <= k < name.len() ==> name[k] != '/');
        in_library_is_two_below(home, name);
    }
    assert(parts(in_library(home, list[5])).len() == parts(home).len() + 2) by {
        reveal_strlit("Contacts");
        let name = "Contacts"@;
        assert(name.len() == 8);
        assert(forall|k: int| 0 <= k < name.len() ==> name[k] != '/');
        in_library_is_two_below(home, name);
    }
    assert(parts(in_library(home, list[6])).len() == parts(home).len() + 2) by {
        reveal_strlit("Cookies");
        let name = "Cookies"@;
        assert(name.len() == 7);
        assert(forall|k: int| 0 <= k < name.len() ==> name[k] != '/');
        in_library_is_two_below(home, name);
    }
    assert(parts(in_library(home, list[7])).len() == parts(home).len() + 2) by {
        reveal_strlit("IdentityServices");
        let name = "IdentityServices"@;
        assert(name.len() == 16);
        assert(forall|k: int| 0 <= k < name.len() ==> name[k] != '/');
        in_library_is_two_below(home, name);
    }
    assert(parts(in_library(home, list[8])).len() == parts(home).len() + 2) by {
        reveal_strlit("Keychains");
        let name = "Keychains"@;
        assert(name.len() == 9);
        assert(forall|k: int| 0 <= k < name.len() ==> name[k] != '/');
        in_library_is_two_below(home, name);
    }
    assert(parts(in_library(home, list[9])).len() == parts(home).len() + 2) by {
        reveal_strlit("Mail");
        let name = "Mail"@;
        assert(name.len() == 4);
        assert(forall|k: int| 0 <= k < name.len() ==> name[k] != '/');
        in_library_is_two_below(home, name);
    }
    assert(parts(in_library(home, list[10])).len() == parts(home).len() + 2) by {
        reveal_strlit("Messages");
        let name = "Messages"@;
        assert(name.len() == 8);
        assert(forall|k: int| 0 <= k < name.len() ==> name[k] != '/');
        in_library_is_two_below(home, name);
    }
    assert(parts(in_library(home, list[11])).len() == parts(home).len() + 2) by {
        reveal_strlit("Mobile Documents");
        let name = "Mobile Documents"@;
        assert(name.len() == 16);
        assert(forall|k: int| 0 <= k < name.len() ==> name[k] != '/');
        in_library_is_two_below(home, name);
    }
    assert(parts(in_library(home, list[12])).len() == parts(home).len() + 2) by {
        reveal_strlit("Photos");
        let name = "Photos"@;
        assert(name.len() == 6);
        assert(forall|k: int| 0 <= k < name.len() ==> name[k] != '/');
        in_library_is_two_below(home, name);
    }
    assert(parts(in_library(home, list[13])).len() == parts(home).len() + 2) by {
        reveal_strlit("Preferences");
        let name = "Preferences"@;
        assert(name.len() == 11);
        assert(forall|k: int| 0 <= k < name.len() ==> name[k] != '/');
        in_library_is_two_below(home, name);
    }
    assert(parts(in_library(home, list[14])).len() == parts(home).len() + 2) by {
        reveal_strlit("Reminders");
        let name = "Reminders"@;
        assert(name.len() == 9);
        assert(forall|k: int| 0 <= k < name.len() ==> name[k] != '/');
        in_library_is_two_below(home, name);
    }
    assert(parts(in_library(home, list[15])).len() == parts(home).len() + 2) by {
        reveal_strlit("Safari");
        let name = "Safari"@;
        assert(name.len() == 6);
        assert(forall|k: int| 0 <= k < name.len() ==> name[k] != '/');
        in_library_is_two_below(home, name);
    }
}

/// The limits of a scan of the home folder.
pub open spec fn home_limits(root: PlaceSpec, home: Seq<char>, known: Seq<PlaceSpec>) -> LimitsSpec {
    limits_of(
        root,
        all_looked_up(denylist_for(Some(home)), known),
        all_looked_up(shields_for(Some(home)), known),
    )
}

/// Whether the root of a scan is the home folder, and neither it nor what the rules name is a
/// link.
pub open spec fn plain_home(root: PlaceSpec, home: Seq<char>, known: Seq<PlaceSpec>) -> bool {
    &&& absolute(home)
    &&& parts(home).len() >= 2
    &&& same_path(root_of(root), home)
    &&& same_path(parent_form(root), home)
    &&& forall|path: Seq<char>|
        denylist_for(Some(home)).contains(path) || shields_for(Some(home)).contains(path)
            ==> #[trigger] resolves_to_itself(path, known)
}

proof fn denied_at_home(
    root: PlaceSpec,
    home: Seq<char>,
    known: Seq<PlaceSpec>,
    judged: Seq<char>,
    i: int,
)
    requires
        plain_home(root, home, known),
        0 <= i < library_denied().len(),
        within(judged, in_library(home, library_denied()[i])),
    ensures
        within_any(judged, home_limits(root, home, known).denied),
{
    let list = denylist_for(Some(home));
    let path = in_library(home, library_denied()[i]);
    let below = all_below(joined(home, "Library"@), library_denied());
    let at = system_denied().len() + i;
    assert(below[i] == path);
    assert(list[at] == path);
    assert(list.contains(path));
    forms_are_the_path(path, known);
    let denied = all_looked_up(list, known);
    assert(denied[at] == looked_up(path, known));
    let form = forms_of(denied[at])[0];
    a_form_is_collected(denied, denied.len(), at, 0);
    the_private_folders_are_deep(home);
    assert(!within(root_of(root), form));
    what_is_not_above_the_root_stays(all_forms(denied, denied.len()), root_of(root), form);
    let limits = home_limits(root, home, known);
    let k = choose|k: int| 0 <= k < limits.denied.len() && limits.denied[k] == form;
    assert(within(judged, limits.denied[k]));
}

proof fn denied_at_home_is_private(
    root: PlaceSpec,
    home: Seq<char>,
    known: Seq<PlaceSpec>,
    judged: Seq<char>,
)
    requires
        plain_home(root, home, known),
        within(judged, home),
        within_any(judged, home_limits(root, home, known).denied),
    ensures
        exists|i: int|
            0 <= i < library_denied().len() && within(
                judged,
                in_library(home, #[trigger] library_denied()[i]),
            ),
{
    let list = denylist_for(Some(home));
    let denied = all_looked_up(list, known);
    let all = all_forms(denied, denied.len());
    let limits = home_limits(root, home, known);
    let k = choose|k: int| 0 <= k < limits.denied.len() && within(judged, #[trigger] limits.denied[k]);
    let form = limits.denied[k];
    what_is_not_above_the_root_stays(all, root_of(root), form);
    let at = choose|at: int| 0 <= at < all.len() && all[at] == form;
    let (i, j) = a_collected_form_is_one(denied, denied.len(), at);
    assert(denied[i] == looked_up(list[i], known));
    assert(list.contains(list[i]));
    forms_are_the_path(list[i], known);
    assert(same_path(form, list[i]));
    let n = system_denied().len() as int;
    let f = parts(form);
    let r = parts(home);
    let whole = parts(judged);
    if i < n {
        the_system_is_near_the_top();
        assert(list[i] == system_denied()[i]);
        assert(f.len() <= r.len());
        assert(f =~= r.take(f.len() as int)) by {
            assert(f =~= whole.take(f.len() as int));
            assert(r =~= whole.take(r.len() as int));
        }
        assert(f.is_prefix_of(r));
    } else if i == list.len() - 1 {
        assert(list[i] == home);
        assert(f.is_prefix_of(r));
    } else {
        let below = all_below(joined(home, "Library"@), library_denied());
        assert(list[i] == below[i - n]);
        assert(below[i - n] == in_library(home, library_denied()[i - n]));
        assert(within(judged, in_library(home, library_denied()[i - n])));
    }
}

proof fn shielded_at_home(
    root: PlaceSpec,
    home: Seq<char>,
    known: Seq<PlaceSpec>,
    judged: Seq<char>,
)
    requires
        plain_home(root, home, known),
    ensures
        same_as_any(judged, home_limits(root, home, known).shielded) <==> exists|i: int|
            0 <= i < shields_for(Some(home)).len() && same_path(
                judged,
                #[trigger] shields_for(Some(home))[i],
            ),
{
    let list = shields_for(Some(home));
    let shielded = all_looked_up(list, known);
    let all = all_forms(shielded, shielded.len());
    if same_as_any(judged, all) {
        let k = choose|k: int| 0 <= k < all.len() && same_path(judged, #[trigger] all[k]);
        let (i, j) = a_collected_form_is_one(shielded, shielded.len(), k);
        assert(shielded[i] == looked_up(list[i], known));
        assert(list.contains(list[i]));
        forms_are_the_path(list[i], known);
        assert(same_path(judged, list[i]));
    }
    if exists|i: int| 0 <= i < list.len() && same_path(judged, #[trigger] list[i]) {
        let i = choose|i: int| 0 <= i < list.len() && same_path(judged, #[trigger] list[i]);
        assert(shielded[i] == looked_up(list[i], known));
        assert(list.contains(list[i]));
        forms_are_the_path(list[i], known);
        a_form_is_collected(shielded, shielded.len(), i, 0);
        let form = forms_of(shielded[i])[0];
        let k = choose|k: int| 0 <= k < all.len() && all[k] == form;
        assert(same_path(judged, all[k]));
    }
}

/// In a scan of the home folder the rules come to this: the home folder itself is the root, what
/// lies within a private folder of the library is denied, the library folder and the three
/// folders of what programs keep are shielded, and everything else below the home folder may go.
pub proof fn what_may_go_below_the_home_folder(
    root: PlaceSpec,
    home: Seq<char>,
    known: Seq<PlaceSpec>,
    judged: Seq<char>,
)
    requires
        plain_home(root, home, known),
        within(judged, home),
    ensures
        home_limits(root, home, known).refuses(judged) == if same_path(judged, home) {
            Some(BlockReason::IsRoot)
        } else if private(home, judged) {
            Some(BlockReason::Denylisted)
        } else if shield(home, judged) {
            Some(BlockReason::Shielded)
        } else {
            None
        },
{
    let limits = home_limits(root, home, known);
    let whole = parts(judged);
    let r = parts(home);
    assert(within(limits.root, judged) == same_path(judged, home)) by {
        if within(limits.root, judged) {
            assert(whole =~= r);
        }
        if same_path(judged, home) {
            assert(whole.is_prefix_of(r));
        }
    }
    assert(within(limits.root_as_given, judged) == same_path(judged, home));
    assert(within(judged, limits.root));
    let list = library_denied();
    assert(list[0] == "Accounts"@);
    assert(list[1] == "Application Scripts"@);
    assert(list[2] == "Autosave Information"@);
    assert(list[3] == "Calendars"@);
    assert(list[4] == "CloudStorage"@);
    assert(list[5] == "Contacts"@);
    assert(list[6] == "Cookies"@);
    assert(list[7] == "IdentityServices"@);
    assert(list[8] == "Keychains"@);
    assert(list[9] == "Mail"@);
    assert(list[10] == "Messages"@);
    assert(list[11] == "Mobile Documents"@);
    assert(list[12] == "Photos"@);
    assert(list[13] == "Preferences"@);
    assert(list[14] == "Reminders"@);
    assert(list[15] == "Safari"@);
    if private(home, judged) {
        let i = choose|i: int|
            0 <= i < list.len() && within(judged, in_library(home, #[trigger] list[i]));
        denied_at_home(root, home, known, judged, i);
    }
    if within_any(judged, limits.denied) {
        denied_at_home_is_private(root, home, known, judged);
        assert(private(home, judged));
    }
    shielded_at_home(root, home, known, judged);
    the_shields_are_the_library_and_three_of_its_folders(home);
    let shields = shields_for(Some(home));
    let below = all_below(joined(home, "Library"@), library_shielded());
    assert(below[0] == in_library(home, "Application Support"@));
    assert(below[1] == in_library(home, "Containers"@));
    assert(below[2] == in_library(home, "Group Containers"@));
    assert(shields[0] == below[0] && shields[1] == below[1] && shields[2] == below[2]);
    assert(shields[3] == joined(home, "Library"@));
}

/// Nothing in a private folder of the library is deleted by a scan of the home folder: the check
/// answers that it is denied, whatever name the caller gave the entry.
pub proof fn nothing_private_is_deleted(
    root: PlaceSpec,
    home: Seq<char>,
    known: Seq<PlaceSpec>,
    path: Seq<char>,
    look: LookSpec,
    resolved: Seq<char>,
)
    requires
        plain_home(root, home, known),
        file_name_of(path) is Some,
        look.parent is Ok,
        look.seen == SeenSpec::Entry(Some(resolved)),
        private(home, resolved),
        within(resolved, home),
        !same_path(resolved, home),
    ensures
        home_limits(root, home, known).checks(path, look) == Err::<(Seq<char>, Seq<char>), BlockReason>(
            BlockReason::Denylisted,
        ),
{
    what_may_go_below_the_home_folder(root, home, known, resolved);
}

/// What stands in the way of judging a path is told apart: a path without a name, a parent that
/// is not there, a parent or an entry that cannot be looked at. A link and what is not there are
/// judged by their own path, anything else by what it resolves to.
pub proof fn a_path_is_judged_by_what_it_is(limits: LimitsSpec, path: Seq<char>, look: LookSpec)
    ensures
        file_name_of(path) is None ==> limits.checks(path, look) == Err::<
            (Seq<char>, Seq<char>),
            BlockReason,
        >(BlockReason::Malformed),
        file_name_of(path) is Some && look.parent == Err::<Seq<char>, Trouble>(Trouble::NotFound)
            ==> limits.checks(path, look) == Err::<(Seq<char>, Seq<char>), BlockReason>(
            BlockReason::Missing,
        ),
        file_name_of(path) is Some && look.parent == Err::<Seq<char>, Trouble>(Trouble::Other)
            ==> limits.checks(path, look) == Err::<(Seq<char>, Seq<char>), BlockReason>(
            BlockReason::Unreadable,
        ),
        file_name_of(path) is Some && look.parent is Ok && look.seen == SeenSpec::Unseen(
            Trouble::Other,
        ) ==> limits.checks(path, look) == Err::<(Seq<char>, Seq<char>), BlockReason>(
            BlockReason::Unreadable,
        ),
        limits.checks(path, look) matches Ok((deleted, judged)) ==> {
            &&& deleted == joined(look.parent->Ok_0, file_name_of(path)->0)
            &&& (look.seen is Link || look.seen is Unseen) ==> judged == deleted
            &&& look.seen matches SeenSpec::Entry(Some(resolved)) ==> judged == resolved
        },
{
}

/// Whether the guards allow entry `i` of a plan and something is there.
pub open spec fn is_candidate(
    plan: Plan,
    limits: LimitsSpec,
    looks: Seq<EntryLook>,
    i: int,
) -> bool {
    &&& limits.checks(plan.entries@[i].path@, looks[i]@.look) is Ok
    &&& looks[i]@.stat is Ok
}

/// The form the guards judged entry `i` of a plan by.
pub open spec fn judged_as(
    plan: Plan,
    limits: LimitsSpec,
    looks: Seq<EntryLook>,
    i: int,
) -> Seq<char> {
    limits.checks(plan.entries@[i].path@, looks[i]@.look)->Ok_0.1
}

/// Whether candidate `j` of a plan stands for candidate `i` as well: it contains it, or it is the
/// same entry and came first.
pub open spec fn stands_for(
    plan: Plan,
    limits: LimitsSpec,
    looks: Seq<EntryLook>,
    j: int,
    i: int,
) -> bool {
    &&& 0 <= j < plan.entries@.len()
    &&& j != i
    &&& is_candidate(plan, limits, looks, j)
    &&& within(judged_as(plan, limits, looks, i), judged_as(plan, limits, looks, j))
    &&& j < i || !same_path(judged_as(plan, limits, looks, i), judged_as(plan, limits, looks, j))
}

/// What a preview says of an entry follows from the guards, the disk and the other candidates
/// alone. An entry is ready when the guards allow it, something is there, and no other candidate
/// of the batch stands for it; where one does, it is nested. The guards' refusal comes before that
/// of the disk. The kind is what the disk says where it was asked, and the size is the plan's.
pub proof fn what_a_preview_says_of_an_entry(
    shown: Preview,
    plan: Plan,
    limits: LimitsSpec,
    looks: Seq<EntryLook>,
    i: int,
)
    requires
        previews(shown, plan, limits, looks),
        0 <= i < plan.entries@.len(),
    ensures
        shown.entries@.len() == plan.entries@.len(),
        shown.mode == plan.mode,
        shown.entries@[i].size == plan.entries@[i].size,
        ({
            let entry = shown.entries@[i];
            let checked = limits.checks(plan.entries@[i].path@, looks[i]@.look);
            let nested = exists|j: int| stands_for(plan, limits, looks, j, i);
            &&& checked matches Err(reason) ==> entry.status == EntryStatus::Blocked(reason)
                && entry.path@ == plan.entries@[i].path@ && entry.kind == plan.entries@[i].kind
            &&& checked is Ok ==> entry.path@ == checked->Ok_0.0
            &&& checked is Ok && looks[i]@.stat == Err::<NodeKind, SystemErrorKind>(
                SystemErrorKind::Missing,
            ) ==> entry.status == EntryStatus::Blocked(BlockReason::Missing)
            &&& checked is Ok && looks[i]@.stat == Err::<NodeKind, SystemErrorKind>(
                SystemErrorKind::Rejected,
            ) ==> entry.status == EntryStatus::Blocked(BlockReason::Malformed)
            &&& checked is Ok && looks[i]@.stat == Err::<NodeKind, SystemErrorKind>(
                SystemErrorKind::Other,
            ) ==> entry.status == EntryStatus::Blocked(BlockReason::Unreadable)
            &&& is_candidate(plan, limits, looks, i) ==> entry.kind == looks[i]@.stat->Ok_0
            &&& is_candidate(plan, limits, looks, i) && nested ==> entry.status
                == EntryStatus::Blocked(BlockReason::Nested)
            &&& is_candidate(plan, limits, looks, i) && !nested ==> entry.status
                == EntryStatus::Ready
        }),
{
    let verdicts = verdicts_on(plan.entries@, limits, looks);
    assert(shown_as(plan.entries@[i], verdicts, i, shown.entries@[i]));
    assert forall|j: int| 0 <= j < verdicts.len() implies (#[trigger] verdicts[j] is Ready)
        == is_candidate(plan, limits, looks, j) && (verdicts[j] is Ready ==> verdicts[j]->judged
        == judged_as(plan, limits, looks, j)) by {}
    if is_candidate(plan, limits, looks, i) {
        assert(verdicts[i] is Ready);
        if covered(verdicts, i) {
            let j = choose|j: int| #[trigger] covers(verdicts, j, i);
            assert(verdicts[j] is Ready);
            assert(stands_for(plan, limits, looks, j, i));
        }
        if exists|j: int| stands_for(plan, limits, looks, j, i) {
            let j = choose|j: int| stands_for(plan, limits, looks, j, i);
            assert(verdicts[j] is Ready);
            assert(covers(verdicts, j, i));
        }
    }
}

/// What a preview promises is the sum of the sizes of the entries that are ready, and of no
/// others; a sum beyond the largest number is that number.
pub proof fn a_preview_promises_what_is_ready(entries: Seq<PreviewEntry>, k: nat)
    requires
        k <= entries.len(),
    ensures
        ({
            let sum = total(
                entries.take(k as int),
                |entry: PreviewEntry|
                    if entry.status == EntryStatus::Ready {
                        entry.size as nat
                    } else {
                        0
                    },
            );
            ready_bytes(entries, k) == if sum <= u64::MAX {
                sum
            } else {
                u64::MAX as nat
            }
        }),
    decreases k,
{
    let size = |entry: PreviewEntry|
        if entry.status == EntryStatus::Ready {
            entry.size as nat
        } else {
            0
        };
    if k > 0 {
        a_preview_promises_what_is_ready(entries, (k - 1) as nat);
        let now = entries.take(k as int);
        assert(now.drop_last() =~= entries.take(k - 1));
        assert(now.last() == entries[k - 1]);
        assert(total(now, size) == total(now.drop_last(), size) + size(now.last()));
    }
}

/// What a batch freed is the sum of the bytes of what was removed: a failure and a skipped entry
/// free nothing.
pub proof fn a_batch_freed_what_was_removed(results: Seq<EntryResultSpec>, k: nat)
    requires
        k <= results.len(),
    ensures
        ({
            let sum = total(
                results.take(k as int),
                |result: EntryResultSpec|
                    match result {
                        EntryResultSpec::Removed(bytes) => bytes as nat,
                        EntryResultSpec::Failed(_) => 0,
                        EntryResultSpec::Skipped(_) => 0,
                    },
            );
            freed_bytes(results, k) == if sum <= u64::MAX {
                sum
            } else {
                u64::MAX as nat
            }
        }),
    decreases k,
{
    let size = |result: EntryResultSpec|
        match result {
            EntryResultSpec::Removed(bytes) => bytes as nat,
            EntryResultSpec::Failed(_) => 0,
            EntryResultSpec::Skipped(_) => 0,
        };
    if k > 0 {
        a_batch_freed_what_was_removed(results, (k - 1) as nat);
        let now = results.take(k as int);
        assert(now.drop_last() =~= results.take(k - 1));
        assert(now.last() == results[k - 1]);
        assert(total(now, size) == total(now.drop_last(), size) + size(now.last()));
    }
}

/// An entry of a batch is deleted exactly when it was shown as ready, the guards still allow it
/// and it still is of the kind that was shown. It is then removed with the size that was shown,
/// or failed with what the system said; one that went away in the meantime is skipped as missing.
/// Every other entry is skipped: with the reason it was shown with, with that of the guards, that
/// of the disk, or because it is another thing by now.
pub proof fn what_becomes_of_an_entry(
    outcome: Outcome,
    preview: Preview,
    limits: LimitsSpec,
    runs: Seq<EntryRun>,
    at: Timestamp,
    i: int,
)
    requires
        carries_out(outcome, preview, limits, runs, at),
        0 <= i < preview.entries@.len(),
    ensures
        outcome.mode == preview.mode,
        outcome.entries@.len() == preview.entries@.len(),
        outcome.entries@[i].kind == preview.entries@[i].kind,
        ({
            let entry = preview.entries@[i];
            let result = outcome.entries@[i].result@;
            let look = runs[i].look@;
            let checked = limits.checks(entry.path@, look.look);
            let goes = entry.status == EntryStatus::Ready && checked is Ok && look.stat == Ok::<
                NodeKind,
                SystemErrorKind,
            >(entry.kind);
            &&& goes ==> outcome.entries@[i].path@ == checked->Ok_0.0
            &&& goes && runs[i].attempt is Ok ==> result == EntryResultSpec::Removed(entry.size)
            &&& goes ==> (runs[i].attempt matches Err(error) ==> if error.kind
                == SystemErrorKind::Missing {
                result == EntryResultSpec::Skipped(BlockReason::Missing)
            } else {
                result == EntryResultSpec::Failed(error.message@)
            })
            &&& !goes ==> result is Skipped
            &&& entry.status matches EntryStatus::Blocked(reason) ==> result
                == EntryResultSpec::Skipped(reason) && outcome.entries@[i].path@ == entry.path@
            &&& entry.status == EntryStatus::Ready && checked is Err ==> result
                == EntryResultSpec::Skipped(checked->Err_0)
            &&& entry.status == EntryStatus::Ready && checked is Ok && look.stat is Ok
                && look.stat->Ok_0 != entry.kind ==> result == EntryResultSpec::Skipped(
                BlockReason::KindChanged,
            )
        }),
{
    assert(outcome.entries@[i].path@ == outcome_of(
        preview.entries@[i],
        limits,
        runs[i].look@,
        runs[i].attempt,
    ).path);
}

/// A line of the record says what became of an entry, when and in which mode: that it was removed
/// and what that freed, why it failed, or the name of the reason it was skipped for. Only what was
/// removed has bytes.
pub proof fn a_line_says_what_became_of_an_entry(
    line: LogEntry,
    entry: EntryOutcome,
    at: Timestamp,
    mode: Mode,
)
    requires
        line.records(entry, at, mode),
    ensures
        line.at == at,
        line.mode == mode,
        line.path@ == entry.path@,
        line.kind == entry.kind,
        entry.result@ matches EntryResultSpec::Removed(bytes) ==> line.result == LogResult::Removed
            && line.detail is None && line.bytes == bytes,
        entry.result@ matches EntryResultSpec::Failed(message) ==> line.result == LogResult::Failed
            && opt_text(line.detail) == Some(message) && line.bytes == 0,
        entry.result@ matches EntryResultSpec::Skipped(reason) ==> line.result
            == LogResult::Skipped && line.bytes == 0 && opt_text(line.detail) == Some(
            match reason {
                BlockReason::OutsideRoots => "outsideRoots"@,
                BlockReason::Denylisted => "denylisted"@,
                BlockReason::Shielded => "shielded"@,
                BlockReason::Malformed => "malformed"@,
                BlockReason::IsRoot => "isRoot"@,
                BlockReason::Nested => "nested"@,
                BlockReason::Missing => "missing"@,
                BlockReason::Unreadable => "unreadable"@,
                BlockReason::KindChanged => "kindChanged"@,
                BlockReason::Kept => "kept"@,
            },
        ),
{
}

} // verus!
