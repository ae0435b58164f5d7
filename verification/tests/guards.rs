use std::collections::BTreeMap;
use std::path::{Component, Path};

use storage_monitor::action::guards::{
    drop_nested, standard_denylist, standard_shields, Checked, Limits, Look, Place, Seen, Trouble,
};
use storage_monitor::action::model::BlockReason;

/// What is at one path of a [`Disk`].
enum Thing {
    Dir,
    /// A directory nobody may look into.
    Locked,
    File,
    Link(String),
}

/// A file system as the rules see it: what can be asked of a path, and the answers.
struct Disk {
    things: BTreeMap<String, Thing>,
    /// One name in two spellings opens the same entry.
    folded: bool,
}

impl Disk {
    fn new() -> Disk {
        Disk { things: BTreeMap::new(), folded: false }
    }

    fn put(&mut self, path: &str, thing: Thing) {
        let mut above = String::new();
        let names: Vec<&str> = path.split('/').filter(|name| !name.is_empty()).collect();
        for name in &names[..names.len().saturating_sub(1)] {
            above.push('/');
            above.push_str(name);
            self.things.entry(above.clone()).or_insert(Thing::Dir);
        }
        self.things.insert(path.to_owned(), thing);
    }

    fn dir(mut self, path: &str) -> Disk {
        self.put(path, Thing::Dir);
        self
    }

    fn file(mut self, path: &str) -> Disk {
        self.put(path, Thing::File);
        self
    }

    fn link(mut self, path: &str, target: &str) -> Disk {
        self.put(path, Thing::Link(target.to_owned()));
        self
    }

    fn locked(mut self, path: &str) -> Disk {
        self.put(path, Thing::Locked);
        self
    }

    /// The path under which the disk keeps what `path` names there, link or not.
    fn spelled(&self, path: &str) -> Option<String> {
        if self.things.contains_key(path) {
            return Some(path.to_owned());
        }
        if !self.folded {
            return None;
        }
        let wanted = path.to_lowercase();
        self.things.keys().find(|known| known.to_lowercase() == wanted).cloned()
    }

    fn entry(&self, dir: &str, name: &str) -> Result<String, Trouble> {
        if dir != "/" {
            match self.things.get(dir) {
                Some(Thing::Dir) => {}
                _ => return Err(Trouble::Other),
            }
        }
        let path = if dir == "/" { format!("/{name}") } else { format!("{dir}/{name}") };
        self.spelled(&path).ok_or(Trouble::NotFound)
    }

    /// The whole path resolved, with every link followed.
    fn resolve(&self, path: &str) -> Result<String, Trouble> {
        if path.is_empty() {
            return Err(Trouble::NotFound);
        }
        let mut at = "/work".to_owned();
        for component in Path::new(path).components() {
            match component {
                Component::RootDir => at = "/".to_owned(),
                Component::ParentDir => {
                    let up = at.rfind('/').unwrap_or(0);
                    at.truncate(up.max(1));
                }
                Component::Normal(name) => {
                    let found = self.entry(&at, name.to_str().unwrap())?;
                    at = match &self.things[&found] {
                        Thing::Link(target) => self.resolve(target)?,
                        _ => found,
                    };
                }
                _ => {}
            }
        }
        Ok(at)
    }

    fn place(&self, path: &str) -> Place {
        let parent = Path::new(path).parent().and_then(|parent| parent.to_str());
        Place {
            path: path.to_owned(),
            parent: parent.and_then(|parent| self.resolve(parent).ok()),
            resolved: self.resolve(path).ok(),
        }
    }

    fn places(&self, paths: &[&str]) -> Vec<Place> {
        paths.iter().map(|path| self.place(path)).collect()
    }

    fn look(&self, path: &str) -> Look {
        let parts = (Path::new(path).parent(), Path::new(path).file_name());
        let (Some(parent), Some(name)) = parts else {
            return Look { parent: Err(Trouble::Other), seen: Seen::Unseen(Trouble::Other) };
        };
        let parent = self.resolve(parent.to_str().unwrap());
        let seen = match &parent {
            Err(trouble) => Seen::Unseen(*trouble),
            Ok(parent) => match self.entry(parent, name.to_str().unwrap()) {
                Err(trouble) => Seen::Unseen(trouble),
                Ok(found) => match &self.things[&found] {
                    Thing::Link(_) => Seen::Link,
                    _ => Seen::Entry { resolved: Some(found) },
                },
            },
        };
        Look { parent, seen }
    }

    fn limits(&self, root: &str) -> Limits {
        let denied = format!("{root}/Library");
        Limits::new(self.place(root), self.places(&[&denied]))
    }

    fn standard(&self, root: &str, home: Option<&str>) -> Limits {
        let mut known = Vec::new();
        for path in standard_denylist(home).iter().chain(standard_shields(home).iter()) {
            known.push(self.place(path));
        }
        Limits::for_scan_root(self.place(root), home, &known)
    }

    fn check(&self, limits: &Limits, path: &str) -> Result<Checked, BlockReason> {
        limits.check(path, &self.look(path))
    }

    fn allowed(&self, limits: &Limits, path: &str) -> String {
        self.check(limits, path).unwrap().path
    }
}

/// Absolute, and with nothing in it that a second reading would drop.
fn assert_normal_form(path: &str) {
    assert!(path.starts_with('/'), "{path} is not absolute");
    let normal: std::path::PathBuf = Path::new(path).components().collect();
    assert_eq!(normal.to_str().unwrap(), path, "{path} is not in normal form");
}

fn strings(paths: &[&str]) -> Vec<String> {
    paths.iter().map(|path| (*path).to_owned()).collect()
}

#[test]
fn a_path_inside_the_root_is_allowed() {
    let disk = Disk::new().file("/t/keep/a.bin");
    let checked = disk.check(&disk.limits("/t"), "/t/keep/a.bin").unwrap();
    assert_eq!(checked.path, "/t/keep/a.bin");
    assert_eq!(
        checked.judged, checked.path,
        "an ordinary file resolves to itself, so the two forms agree"
    );
}

#[test]
fn the_scan_root_itself_is_refused() {
    let disk = Disk::new().dir("/t");
    assert_eq!(disk.check(&disk.limits("/t"), "/t"), Err(BlockReason::IsRoot));
}

#[test]
fn an_ancestor_of_the_root_is_refused() {
    let disk = Disk::new().dir("/t/home/user");
    assert_eq!(
        disk.check(&disk.limits("/t/home/user"), "/t/home"),
        Err(BlockReason::IsRoot)
    );
}

#[test]
fn a_path_outside_the_root_is_refused() {
    let disk = Disk::new().dir("/t/home").dir("/t/elsewhere");
    assert_eq!(
        disk.check(&disk.limits("/t/home"), "/t/elsewhere"),
        Err(BlockReason::OutsideRoots)
    );
}

#[test]
fn a_denylisted_subtree_is_refused() {
    let disk = Disk::new().dir("/t/Library/Caches/app");
    assert_eq!(
        disk.check(&disk.limits("/t"), "/t/Library/Caches/app"),
        Err(BlockReason::Denylisted)
    );
}

#[test]
fn a_path_whose_parent_is_gone_is_refused() {
    let disk = Disk::new().dir("/t");
    assert_eq!(
        disk.check(&disk.limits("/t"), "/t/gone/a.bin"),
        Err(BlockReason::Missing)
    );
}

#[test]
fn a_missing_entry_under_a_live_parent_is_allowed() {
    // The guard rules on where a path points, not on whether anything is there.
    let disk = Disk::new().dir("/t");
    assert_eq!(disk.allowed(&disk.limits("/t"), "/t/gone.bin"), "/t/gone.bin");
}

#[test]
fn a_symlink_is_kept_as_a_link_and_not_resolved() {
    let disk = Disk::new().dir("/t/outside").link("/t/home/link", "/t/outside");
    // The link lives inside the root, so it may be deleted; the target must not be what
    // the guard returns, or we would delete outside the root.
    let checked = disk.check(&disk.limits("/t/home"), "/t/home/link").unwrap();
    assert_eq!(checked.path, "/t/home/link");
    assert_eq!(checked.judged, checked.path, "a symlink is judged as written");
}

#[test]
fn dot_dot_cannot_climb_out_of_the_root() {
    let disk = Disk::new().dir("/t/home/sub").dir("/t/outside");
    assert_eq!(
        disk.check(&disk.limits("/t/home"), "/t/home/sub/../../outside"),
        Err(BlockReason::OutsideRoots)
    );
}

#[test]
fn the_filesystem_root_is_refused() {
    let disk = Disk::new().dir("/t");
    assert_eq!(disk.check(&disk.limits("/t"), "/"), Err(BlockReason::Malformed));
}

#[test]
fn nested_entries_collapse_to_their_ancestor() {
    let paths = strings(&["/h/a", "/h/a/b", "/h/c", "/h/ab"]);
    assert_eq!(drop_nested(&paths), vec![true, false, true, true]);
}

#[test]
fn a_trailing_dot_dot_is_refused() {
    // `remove("<root>/sub/..")` would empty the root.
    let disk = Disk::new().dir("/t/sub");
    assert_eq!(disk.check(&disk.limits("/t"), "/t/sub/.."), Err(BlockReason::Malformed));
}

#[test]
fn a_symlinked_parent_cannot_smuggle_a_path_out_of_the_root() {
    let disk = Disk::new()
        .file("/t/outside/victim.bin")
        .link("/t/home/link", "/t/outside");
    assert_eq!(
        disk.check(&disk.limits("/t/home"), "/t/home/link/victim.bin"),
        Err(BlockReason::OutsideRoots)
    );
}

#[test]
fn a_trailing_separator_is_stripped_from_the_result() {
    let disk = Disk::new().dir("/t/outside").link("/t/home/link", "/t/outside");
    let path = disk.allowed(&disk.limits("/t/home"), "/t/home/link/");
    assert_eq!(path, "/t/home/link");
    assert_normal_form(&path);
}

#[test]
fn dots_inside_the_path_are_normalized_away() {
    let disk = Disk::new().file("/t/home/sub/a.bin");
    let path = disk.allowed(&disk.limits("/t/home"), "/t/home/./sub/../sub/./a.bin");
    assert_eq!(path, "/t/home/sub/a.bin");
    assert_normal_form(&path);
}

#[test]
fn a_relative_path_comes_back_absolute() {
    let disk = Disk::new().file("/work/Cargo.toml");
    let limits = Limits::new(disk.place("/work"), vec![]);
    let path = disk.allowed(&limits, "./Cargo.toml");
    assert_eq!(path, "/work/Cargo.toml");
    assert_normal_form(&path);
}

#[test]
fn a_denied_entry_that_contains_the_root_does_not_block_the_whole_root() {
    let disk = Disk::new().file("/t/home/a.bin");
    let limits = Limits::new(disk.place("/t/home"), disk.places(&["/t", "/t/home"]));
    assert_eq!(disk.allowed(&limits, "/t/home/a.bin"), "/t/home/a.bin");
    assert_eq!(disk.check(&limits, "/t/home"), Err(BlockReason::IsRoot));
    assert_eq!(disk.check(&limits, "/t"), Err(BlockReason::IsRoot));
}

#[test]
fn the_standard_denylist_leaves_an_ordinary_scan_root_usable() {
    let disk = Disk::new().file("/private/tmp/x/a.bin").link("/tmp", "/private/tmp");
    let limits = disk.standard("/tmp/x", Some("/Users/me"));
    assert_eq!(disk.allowed(&limits, "/tmp/x/a.bin"), "/private/tmp/x/a.bin");
}

#[test]
fn the_standard_limits_shield_the_library_folder_and_deny_the_few_names_inside_it() {
    let disk = Disk::new()
        .dir("/h/Library/Caches")
        .dir("/h/Library/Keychains")
        .dir("/h/Library/Application Support/JetBrains")
        .file("/h/Downloads/a.bin");
    let limits = disk.standard("/h", Some("/h"));

    assert_eq!(disk.check(&limits, "/h/Library"), Err(BlockReason::Shielded));
    assert_eq!(
        disk.check(&limits, "/h/Library/Application Support"),
        Err(BlockReason::Shielded),
        "and so is each folder of application data under it"
    );
    assert_eq!(
        disk.allowed(&limits, "/h/Library/Caches"),
        "/h/Library/Caches",
        "what is inside a shield is judged on its own"
    );
    assert_eq!(
        disk.allowed(&limits, "/h/Library/Application Support/JetBrains"),
        "/h/Library/Application Support/JetBrains"
    );
    assert_eq!(
        disk.check(&limits, "/h/Library/Keychains"),
        Err(BlockReason::Denylisted),
        "the few names inside the shield that are denied outright"
    );
    assert_eq!(
        disk.check(&limits, "/h/Library/Keychains/login.keychain-db"),
        Err(BlockReason::Denylisted),
        "with everything below them"
    );
    assert_eq!(
        disk.allowed(&limits, "/h/Downloads/a.bin"),
        "/h/Downloads/a.bin",
        "the home folder in the denylist must not block the scan of the home folder"
    );
}

#[test]
fn the_standard_denylist_protects_the_system_folders() {
    // `/etc` and `/var` are symlinks into `/private` on one system and ordinary directories
    // on another; `/Applications` and `/private` exist only on one of the two. All four are
    // refused either way.
    let mac = Disk::new()
        .dir("/usr/lib")
        .link("/etc", "/private/etc")
        .file("/private/etc/hosts")
        .link("/var", "/private/var")
        .dir("/private/var")
        .link("/tmp", "/private/tmp")
        .dir("/private/tmp")
        .dir("/Applications")
        .dir("/Users")
        .dir("/Volumes")
        .dir("/opt")
        .dir("/cores");
    let linux = Disk::new()
        .dir("/usr/lib")
        .file("/etc/hosts")
        .dir("/var")
        .dir("/tmp")
        .dir("/opt");
    for disk in [mac, linux] {
        let limits = disk.standard("/", Some("/Users/me"));
        for path in [
            "/usr",
            "/usr/lib",
            "/etc",
            "/etc/hosts",
            "/var",
            "/tmp",
            "/private",
            "/Applications",
            "/Users",
            "/Volumes",
            "/opt",
            "/cores",
        ] {
            assert_eq!(disk.check(&limits, path), Err(BlockReason::Denylisted), "{path}");
        }
    }
}

#[test]
fn an_absent_denylist_entry_blocks_nothing_else() {
    let disk = Disk::new().file("/t/a.bin");
    let limits = Limits::new(disk.place("/t"), disk.places(&["/t/absent", "/no/such/place"]));
    assert_eq!(disk.allowed(&limits, "/t/a.bin"), "/t/a.bin");
}

#[test]
fn a_sibling_whose_name_extends_the_root_is_outside_it() {
    let disk = Disk::new().dir("/t/home").file("/t/homework/a.bin");
    assert_eq!(
        disk.check(&disk.limits("/t/home"), "/t/homework/a.bin"),
        Err(BlockReason::OutsideRoots)
    );
}

#[test]
fn a_sibling_whose_name_extends_a_denied_folder_is_allowed() {
    let disk = Disk::new().file("/t/Library-backup/a.bin").dir("/t/Library");
    assert_eq!(
        disk.allowed(&disk.limits("/t"), "/t/Library-backup/a.bin"),
        "/t/Library-backup/a.bin"
    );
}

#[test]
fn a_repeated_entry_survives_once() {
    let paths = strings(&["/h/a", "/h/a", "/h/b"]);
    assert_eq!(drop_nested(&paths), vec![true, false, true]);
}

#[test]
fn a_descendant_is_dropped_however_the_batch_is_ordered() {
    let paths = strings(&["/h/a/b/c", "/h/a", "/h/a/b"]);
    assert_eq!(drop_nested(&paths), vec![false, true, false]);
}

#[test]
fn nothing_is_dropped_from_an_empty_batch() {
    assert!(drop_nested(&Vec::new()).is_empty());
}

#[test]
fn a_denied_folder_is_denied_in_every_spelling_the_volume_accepts() {
    for folded in [true, false] {
        let mut disk = Disk::new().dir("/t/Library/Caches");
        disk.folded = folded;
        let limits = disk.limits("/t");
        assert_eq!(disk.check(&limits, "/t/Library"), Err(BlockReason::Denylisted));
        for spelling in ["/t/library", "/t/LIBRARY"] {
            let verdict = disk.check(&limits, spelling);
            if folded {
                assert_eq!(verdict, Err(BlockReason::Denylisted), "{spelling}");
            } else {
                assert_eq!(verdict.unwrap().path, spelling);
            }
        }
        let below = disk.check(&limits, "/t/library/Caches");
        if folded {
            assert_eq!(below, Err(BlockReason::Denylisted), "and below it");
        } else {
            assert_eq!(below, Err(BlockReason::Missing), "and nothing is below it");
        }
    }
}

#[test]
fn a_shielded_folder_is_shielded_in_every_spelling_the_volume_accepts() {
    for folded in [true, false] {
        let mut disk = Disk::new().dir("/t/Library/Caches");
        disk.folded = folded;
        let limits =
            Limits::new(disk.place("/t"), vec![]).shielding(disk.places(&["/t/Library"]));
        assert_eq!(disk.check(&limits, "/t/Library"), Err(BlockReason::Shielded));
        for spelling in ["/t/library", "/t/LIBRARY"] {
            let verdict = disk.check(&limits, spelling);
            if folded {
                assert_eq!(verdict, Err(BlockReason::Shielded), "{spelling}");
            } else {
                assert_eq!(verdict.unwrap().path, spelling);
            }
        }
        assert_eq!(
            disk.allowed(&limits, "/t/Library/Caches"),
            "/t/Library/Caches",
            "the shield covers the folder and nothing under it"
        );
    }
}

#[test]
fn the_checked_path_keeps_the_last_component_the_caller_wrote() {
    for folded in [true, false] {
        let mut disk = Disk::new().dir("/t/Data");
        disk.folded = folded;
        let limits = Limits::new(disk.place("/t"), vec![]);
        let checked = disk.check(&limits, "/t/data").unwrap();
        assert_eq!(checked.path, "/t/data");
        assert_normal_form(&checked.path);
        let judged = if folded { "/t/Data" } else { "/t/data" };
        assert_eq!(checked.judged, judged);
    }
}

#[test]
fn a_denied_symlink_is_refused_as_the_link_and_as_its_target() {
    let disk = Disk::new().file("/t/target/inside.bin").link("/t/link", "/t/target");
    let limits = Limits::new(disk.place("/t"), disk.places(&["/t/link"]));
    for path in ["/t/link", "/t/link/inside.bin", "/t/target"] {
        assert_eq!(disk.check(&limits, path), Err(BlockReason::Denylisted), "{path}");
    }
}

#[test]
fn a_symlinked_scan_root_recognises_itself() {
    let disk = Disk::new().file("/t/real/a.bin").link("/t/rootlink", "/t/real");
    let limits = Limits::new(disk.place("/t/rootlink"), vec![]);
    assert_eq!(disk.check(&limits, "/t/rootlink"), Err(BlockReason::IsRoot));
    assert_eq!(disk.check(&limits, "/t/real"), Err(BlockReason::IsRoot));
    assert_eq!(
        disk.allowed(&limits, "/t/rootlink/a.bin"),
        "/t/real/a.bin",
        "what is inside it stays deletable"
    );
}

#[test]
fn a_path_behind_an_unreadable_directory_is_not_called_gone() {
    let mut disk = Disk::new().file("/t/locked/inner/a.bin");
    disk = disk.locked("/t/locked");
    let limits = Limits::new(disk.place("/t"), vec![]);
    assert_eq!(
        disk.check(&limits, "/t/locked/inner/a.bin"),
        Err(BlockReason::Unreadable),
        "the parent cannot be resolved"
    );
    assert_eq!(
        disk.check(&limits, "/t/locked/a.bin"),
        Err(BlockReason::Unreadable),
        "the entry cannot be looked at"
    );
}

#[test]
fn a_scan_root_the_user_pointed_at_a_denied_folder_unlocks_it() {
    let disk = Disk::new().dir("/h/Library/Caches").dir("/h/Library/Keychains");
    let limits = disk.standard("/h/Library", Some("/h"));
    assert_eq!(disk.allowed(&limits, "/h/Library/Caches"), "/h/Library/Caches");
    assert_eq!(
        disk.check(&limits, "/h/Library"),
        Err(BlockReason::IsRoot),
        "the root itself is still refused"
    );
    assert_eq!(
        disk.check(&limits, "/h/Library/Keychains"),
        Err(BlockReason::Denylisted),
        "losing one of these is not recoverable, wherever the root is pointed"
    );
}

#[test]
fn a_denied_folder_that_appears_later_is_still_denied() {
    // The denied path does not exist when the limits are built, but its parent does, which
    // is enough to record the spelling a checked path will resolve to.
    let disk = Disk::new().dir("/t");
    let limits = Limits::new(disk.place("/t"), disk.places(&["/t/Caches"]));
    let disk = disk.dir("/t/Caches/app");
    assert_eq!(disk.check(&limits, "/t/Caches/app"), Err(BlockReason::Denylisted));
}

#[test]
fn a_denied_path_nothing_can_resolve_stays_powerless() {
    let disk = Disk::new().dir("/t/real");
    let limits = Limits::new(disk.place("/t"), disk.places(&["/t/link/Caches"]));
    let disk = disk.link("/t/link", "/t/real").dir("/t/real/Caches/app");
    assert_eq!(
        disk.allowed(&limits, "/t/link/Caches/app"),
        "/t/real/Caches/app"
    );
}

#[test]
fn a_bare_relative_path_is_refused() {
    // It has an empty parent, which names nothing.
    let disk = Disk::new().file("/work/Cargo.toml");
    let limits = Limits::new(disk.place("/work"), vec![]);
    assert_eq!(disk.check(&limits, "Cargo.toml"), Err(BlockReason::Missing));
}
