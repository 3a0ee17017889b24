use vstd::prelude::*;

use crate::error::{BingoError, BingoResult};
use crate::model::{
    has_name, first_index, names_unique, spec_add, spec_remove, spec_rename, ConfigView, EntryView,
};
use crate::model::{
    lemma_add_preserves_unique, lemma_first_index, lemma_remove_preserves_unique,
    lemma_rename_preserves_unique,
};

verus! {

/// How an executable is materialized in the managed bin directory: `Binary`
/// copies the file's bytes, `LinkBinary` creates a symbolic link.
#[derive(Clone, Copy, Debug, PartialEq, Eq, Structural)]
pub enum ExecutableType {
    Binary,
    LinkBinary,
}

/// The mode a short command-line flag selects: `lb` means link, anything
/// else means copy.
pub open spec fn spec_from_flag(s: Seq<char>) -> ExecutableType {
    if s == "lb"@ {
        ExecutableType::LinkBinary
    } else {
        ExecutableType::Binary
    }
}

/// String equality, decided character for character.
pub fn str_eq(a: &str, b: &str) -> (r: bool)
    ensures
        r == (a@ == b@),
{
    let sa = String::from_str(a);
    let sb = String::from_str(b);
    sa == sb
}

impl ExecutableType {
    /// Parses a short command-line flag; unknown flags mean copy.
    pub fn from_flag(s: &str) -> (t: ExecutableType)
        ensures
            t == spec_from_flag(s@),
    {
        if str_eq(s, "lb") {
            ExecutableType::LinkBinary
        } else {
            ExecutableType::Binary
        }
    }

    /// The short command-line flag of this mode.
    pub fn flag(&self) -> (r: &'static str)
        ensures
            r@ == if self is LinkBinary {
                "lb"@
            } else {
                "b"@
            },
{
        match self {
            ExecutableType::Binary => "b",
            ExecutableType::LinkBinary => "lb",
        }
    }
}

/// One tracked executable: its unique name, the frozen absolute source path,
/// and the materialization mode.
#[derive(Debug)]
pub struct Executable {
    pub name: String,
    pub path: String,
    pub executable_type: ExecutableType,
}

impl View for Executable {
    type V = EntryView;

    open spec fn view(&self) -> EntryView {
        EntryView { name: self.name@, path: self.path@, executable_type: self.executable_type }
    }
}

/// The model of a sequence of stored entries.
pub open spec fn entries_view(v: Seq<Executable>) -> Seq<EntryView> {
    v.map_values(|e: Executable| e@)
}

/// The in-memory registry: the schema version and the entries in
/// registration order.
#[derive(Debug)]
pub struct BingoConfig {
    pub version: String,
    pub executables: Vec<Executable>,
}

impl View for BingoConfig {
    type V = ConfigView;

    open spec fn view(&self) -> ConfigView {
        ConfigView { version: self.version@, entries: entries_view(self.executables@) }
    }
}

/// The per-user configuration directory under the given home directory.
pub fn get_config_dir(home: &str) -> (r: String)
    ensures
        r@ == home@ + "/.bingo"@,
{
    let mut s = String::from_str(home);
    s.append("/.bingo");
    s
}

/// The manifest file inside the configuration directory.
pub fn get_config_file(home: &str) -> (r: String)
    ensures
        r@ == home@ + "/.bingo"@ + "/bingo.json"@,
{
    let mut s = get_config_dir(home);
    s.append("/bingo.json");
    s
}

/// The managed bin directory inside the configuration directory.
pub fn get_bingo_bin_dir(home: &str) -> (r: String)
    ensures
        r@ == home@ + "/.bingo"@ + "/bin"@,
{
    let mut s = get_config_dir(home);
    s.append("/bin");
    s
}

/// The rule that gates registration on executability: a permission mode
/// qualifies when any of the three execute bits is set. The caller reads
/// the mode from the source's metadata (the symlink's own, where the
/// source is a symlink) and passes it in.
pub fn mode_is_executable(mode: u32) -> (r: bool)
    ensures
        r == (mode & 0o111 != 0),
{
    mode & 0o111 != 0
}

/// The physical materialization the Installer must perform: duplicate or
/// link `src` at `dest`, then set execute permission bits on `dest`.
pub struct InstallAction {
    pub src: String,
    pub dest: String,
    pub executable_type: ExecutableType,
}

impl BingoConfig {
    /// An empty registry: no version, no entries.
    pub fn new() -> (c: BingoConfig)
        ensures
            c@.version == Seq::<char>::empty(),
            c@.entries == Seq::<EntryView>::empty(),
    {
        let c = BingoConfig { version: String::new(), executables: Vec::new() };
        proof {
            assert(c@.entries =~= Seq::<EntryView>::empty());
        }
        c
    }

    /// Stamps the registry with the running tool's version.
    pub fn set_version(&mut self, version: &str)
        ensures
            final(self)@.version == version@,
            final(self)@.entries == old(self)@.entries,
    {
        self.version = String::from_str(version);
    }

    /// Index of the first entry named `name`, if any.
    fn find_first(&self, name: &str) -> (r: Option<usize>)
        ensures
            match r {
                Some(k) => has_name(self@.entries, name@) && k == first_index(
                    self@.entries,
                    name@,
                ),
                None => !has_name(self@.entries, name@),
            },
    {
        let ghost vs = self@.entries;
        let n = self.executables.len();
        let mut i: usize = 0;
        while i < n
            invariant
                n == self.executables.len(),
                vs == self@.entries,
                vs == entries_view(self.executables@),
                0 <= i <= n,
                forall|j: int| 0 <= j < i ==> vs[j].name != name@,
            decreases n - i,
        {
            if str_eq(self.executables[i].name.as_str(), name) {
                proof {
                    assert(vs[i as int] == self.executables@[i as int]@);
                    assert(vs[i as int].name == name@);
                    assert(has_name(vs, name@));
                    lemma_first_index(vs, name@);
                    let k = first_index(vs, name@);
                    if k < i as int {
                        assert(vs[k].name != name@);
                        assert(vs[k].name == name@);
                    }
                    if k > i as int {
                        assert(vs[i as int].name != name@);
                    }
                    assert(k == i as int);
                }
                return Some(i);
            }
            proof {
                assert(vs[i as int] == self.executables@[i as int]@);
            }
            i += 1;
        }
        proof {
            assert forall|j: int| 0 <= j < vs.len() implies vs[j].name != name@ by {}
        }
        None
    }

    /// Whether some entry is named `name`.
    pub fn contains_name(&self, name: &str) -> (r: bool)
        ensures
            r == has_name(self@.entries, name@),
    {
        match self.find_first(name) {
            Some(_) => true,
            None => false,
        }
    }

    /// The entries, in registration order.
    pub fn list(&self) -> (r: &Vec<Executable>)
        ensures
            entries_view(r@) == self@.entries,
    {
        &self.executables
    }

    /// Computes the materialization of `path` as `name` inside `bin_dir`.
    /// The caller performs it: remove whatever sits at `dest`, copy or link
    /// `src` there, and set execute permission bits on the artifact.
    pub fn install_executables(
        bin_dir: &str,
        path: &str,
        name: &str,
        executable_type: ExecutableType,
    ) -> (a: InstallAction)
        ensures
            a.src@ == path@,
            a.dest@ == bin_dir@ + "/"@ + name@,
            a.executable_type == executable_type,
    {
        let mut dest = String::from_str(bin_dir);
        dest.append("/");
        dest.append(name);
        InstallAction { src: String::from_str(path), dest, executable_type }
    }

    /// The artifact `<bin_dir>/<name>` that deregistering `name` removes.
    /// The caller deletes whatever sits there; nothing sitting there is a
    /// no-op, not an error.
    pub fn uninstall_executables(bin_dir: &str, name: &str) -> (dest: String)
        ensures
            dest@ == bin_dir@ + "/"@ + name@,
    {
        let mut dest = String::from_str(bin_dir);
        dest.append("/");
        dest.append(name);
        dest
    }

    /// Registers `path` under `name`, or overwrites an entry already so
    /// named. `path` must be absolute (the caller resolves relative inputs
    /// against its working directory). The caller probes the filesystem and
    /// passes what it found: whether `path` exists, is a regular file, and
    /// has execute permission, and whether materializing the artifact in
    /// `bin_dir` succeeded (`install_ok`; ignored when a validation error is
    /// returned, since no materialization is attempted then).
    pub fn add_executable(
        &mut self,
        bin_dir: &str,
        path: &str,
        name: &str,
        executable_type: ExecutableType,
        src_exists: bool,
        src_is_file: bool,
        src_is_executable: bool,
        install_ok: bool,
    ) -> (r: BingoResult<()>)
        ensures
            final(self)@.version == old(self)@.version,
            ({
                let pre = old(self)@.entries;
                let e = EntryView { name: name@, path: path@, executable_type };
                let known = has_name(pre, name@);
                &&& (!known && !src_exists ==> (r matches Err(BingoError::FileNotFound(s))
                    && s@ == path@ && final(self)@ == old(self)@))
                &&& (!known && src_exists && !src_is_file ==> (r matches Err(
                    BingoError::ExecutableNotFile(s),
                ) && s@ == path@ && final(self)@ == old(self)@))
                &&& (!known && src_exists && src_is_file && !src_is_executable ==> (r matches Err(
                    BingoError::ExecutableNotExecutable(s),
                ) && s@ == path@ && final(self)@ == old(self)@))
                &&& ((known || (src_exists && src_is_file && src_is_executable)) && !install_ok
                    ==> (r matches Err(BingoError::PermissionDenied(s)) && s@ == bin_dir@ + "/"@
                    + name@ && final(self)@ == old(self)@))
                &&& ((known || (src_exists && src_is_file && src_is_executable)) && install_ok
                    ==> r is Ok && final(self)@.entries == spec_add(pre, e))
                &&& (names_unique(pre) ==> names_unique(final(self)@.entries))
            }),
    {
        let ghost pre = self@.entries;
        let ghost e = EntryView { name: name@, path: path@, executable_type };
        proof {
            if names_unique(pre) {
                lemma_add_preserves_unique(pre, e);
            }
        }
        let found = self.find_first(name);
        match found {
            Some(k) => {
                proof {
                    lemma_first_index(pre, name@);
                }
                if !install_ok {
                    let action = BingoConfig::install_executables(
                        bin_dir,
                        path,
                        name,
                        executable_type,
                    );
                    return Err(BingoError::PermissionDenied(action.dest));
                }
                let entry = Executable {
                    name: String::from_str(name),
                    path: String::from_str(path),
                    executable_type,
                };
                self.executables.remove(k);
                self.executables.insert(k, entry);
                proof {
                    assert(entries_view(self.executables@) =~= spec_add(pre, e));
                }
                Ok(())
            },
            None => {
                if !src_exists {
                    return Err(BingoError::FileNotFound(String::from_str(path)));
                }
                if !src_is_file {
                    return Err(BingoError::ExecutableNotFile(String::from_str(path)));
                }
                if !src_is_executable {
                    return Err(BingoError::ExecutableNotExecutable(String::from_str(path)));
                }
                if !install_ok {
                    let action = BingoConfig::install_executables(
                        bin_dir,
                        path,
                        name,
                        executable_type,
                    );
                    return Err(BingoError::PermissionDenied(action.dest));
                }
                let entry = Executable {
                    name: String::from_str(name),
                    path: String::from_str(path),
                    executable_type,
                };
                self.executables.push(entry);
                proof {
                    assert(entries_view(self.executables@) =~= spec_add(pre, e));
                }
                Ok(())
            },
        }
    }

    /// Deregisters `name`. A name that is not registered is a no-op, not an
    /// error. The caller removes the artifact `<bin_dir>/<name>` afterwards
    /// (removing an absent artifact is equally a no-op).
    pub fn remove_executable(&mut self, name: &str) -> (r: BingoResult<()>)
        ensures
            r is Ok,
            final(self)@.version == old(self)@.version,
            final(self)@.entries == spec_remove(old(self)@.entries, name@),
            names_unique(old(self)@.entries) ==> names_unique(final(self)@.entries),
    {
        let ghost pre = self@.entries;
        proof {
            if names_unique(pre) {
                lemma_remove_preserves_unique(pre, name@);
            }
        }
        let found = self.find_first(name);
        match found {
            Some(k) => {
                proof {
                    lemma_first_index(pre, name@);
                }
                self.executables.remove(k);
                proof {
                    assert(entries_view(self.executables@) =~= spec_remove(pre, name@));
                }
                Ok(())
            },
            None => Ok(()),
        }
    }

    /// Renames the entry `old_name` to `new_name`; a name that is not
    /// registered is a no-op. The caller renames the artifact
    /// `<bin_dir>/<old_name>` to `<bin_dir>/<new_name>` when the entry was
    /// found. No check is made against a `new_name` that is already
    /// registered: such a rename leaves the pre-existing entry behind,
    /// unreferenced.
    pub fn rename_executable(&mut self, old_name: &str, new_name: &str) -> (r: BingoResult<()>)
        ensures
            r is Ok,
            final(self)@.version == old(self)@.version,
            final(self)@.entries == spec_rename(old(self)@.entries, old_name@, new_name@),
            names_unique(old(self)@.entries) && (new_name@ == old_name@ || !has_name(
                old(self)@.entries,
                new_name@,
            )) ==> names_unique(final(self)@.entries),
    {
        let ghost pre = self@.entries;
        proof {
            if names_unique(pre) && (new_name@ == old_name@ || !has_name(pre, new_name@)) {
                lemma_rename_preserves_unique(pre, old_name@, new_name@);
            }
        }
        let found = self.find_first(old_name);
        match found {
            Some(k) => {
                proof {
                    lemma_first_index(pre, old_name@);
                }
                let old_entry = &self.executables[k];
                let entry = Executable {
                    name: String::from_str(new_name),
                    path: old_entry.path.clone(),
                    executable_type: old_entry.executable_type,
                };
                self.executables.remove(k);
                self.executables.insert(k, entry);
                proof {
                    assert(entries_view(self.executables@) =~= spec_rename(
                        pre,
                        old_name@,
                        new_name@,
                    ));
                }
                Ok(())
            },
            None => Ok(()),
        }
    }
}

/// The registry together with the filesystem places it is persisted at.
/// The caller does the reading and writing; this type decides what is read
/// and written.
#[derive(Debug)]
pub struct BingoConfigFile {
    pub config_dir_path: String,
    pub config_file_path: String,
    pub config: BingoConfig,
}

impl BingoConfigFile {
    /// An empty registry homed under the given home directory.
    pub fn new(home: &str) -> (c: BingoConfigFile)
        ensures
            c.config_dir_path@ == home@ + "/.bingo"@,
            c.config_file_path@ == home@ + "/.bingo"@ + "/bingo.json"@,
            c.config@.version == Seq::<char>::empty(),
            c.config@.entries == Seq::<EntryView>::empty(),
    {
        BingoConfigFile {
            config_dir_path: get_config_dir(home),
            config_file_path: get_config_file(home),
            config: BingoConfig::new(),
        }
    }

    /// First-run initialization: when no manifest file exists yet, the fresh
    /// empty manifest (stamped with the tool's version) to write there. When
    /// one exists it is left untouched, whatever it holds.
    pub fn init(file_exists: bool, version: &str) -> (r: Option<String>)
        ensures
            file_exists ==> r is None,
            !file_exists ==> (r matches Some(s) && s@ == crate::json::doc_of(
                (ConfigView { version: version@, entries: Seq::<EntryView>::empty() }),
            )),
    {
        if file_exists {
            return None;
        }
        let mut config = BingoConfig::new();
        config.set_version(version);
        match config.to_json() {
            Ok(s) => Some(s),
            Err(_) => {
                proof {
                    assert(false);
                }
                None
            },
        }
    }

    /// Replaces the in-memory registry with what the given manifest content
    /// says. A content that does not parse leaves the registry as it was and
    /// is reported as a `ConfigFileError`; an unreadable manifest file is
    /// the caller's `ConfigFileNotFound`, raised before any content exists.
    pub fn load(&mut self, content: &str) -> (r: BingoResult<()>)
        ensures
            final(self).config_dir_path == old(self).config_dir_path,
            final(self).config_file_path == old(self).config_file_path,
            r is Ok ==> exists|rs: Seq<crate::json::RawEntry>|
                final(self).config@.entries == crate::json::interp_raw(rs) && (forall|
                    v: Seq<char>,
                    rs0: Seq<crate::json::RawEntry>,
                |
                    content@ == crate::json::raw_doc(v, rs0) ==> v == final(self).config@.version
                        && rs0 == rs) && ((forall|v: Seq<char>, rs0: Seq<crate::json::RawEntry>|
                    content@ != crate::json::raw_doc(v, rs0)) ==> (crate::json::spec_doc(content@)
                    matches Some((v2, rs2)) && v2 == final(self).config@.version && rs2 == rs)),
            r is Err ==> crate::json::spec_doc(content@) is None,
            r matches Err(e) ==> (e matches BingoError::ConfigFileError(_)) && *final(self)
                == *old(self),
            r is Err ==> forall|v: Seq<char>, rs: Seq<crate::json::RawEntry>|
                content@ != crate::json::raw_doc(v, rs),
    {
        match BingoConfig::from_json(content) {
            Ok(config) => {
                self.config = config;
                Ok(())
            },
            Err(e) => Err(e),
        }
    }

    /// The manifest content that persists the in-memory registry; the
    /// caller writes it over the manifest file whole.
    pub fn save(&self) -> (r: BingoResult<String>)
        ensures
            r matches Ok(s) && s@ == crate::json::doc_of(self.config@),
    {
        self.config.to_json()
    }

    /// The shell line that puts the managed bin directory on the search
    /// path.
    pub fn export_path(&self) -> (r: String)
        ensures
            r@ == "export PATH="@ + self.config_dir_path@ + "/bin"@ + ":$PATH"@,
    {
        let mut s = String::from_str("export PATH=");
        s.append(self.config_dir_path.as_str());
        s.append("/bin");
        s.append(":$PATH");
        s
    }
}

} // verus!
