use vstd::prelude::*;

use crate::path::{all_in, last_name, lemma_replay_descents, parent_spec, DirPath, FilePath, Step};
use crate::store::{Content, ContentView, Contents, Directories};
use crate::table::{lemma_map_of_at, lemma_map_of_prefix, map_of, Table};

verus! {

pub type FileMap = Map<Seq<Step>, Map<Seq<char>, ContentView>>;

pub type DirMap = Map<Seq<Step>, Set<Seq<char>>>;

/// The cached part of the remote tree: file listings and subdirectory listings.
pub struct Cache {
    pub files: FileMap,
    pub dirs: DirMap,
}

/// Signals that a mutation needs data that is not cached yet.
#[derive(Debug)]
pub struct NeedsFetch;

// ---- The mutations, as functions of the cache ----

/// Writing with the directory's listing cached; `None` when it is not.
pub open spec fn write_cached(c: Cache, d: Seq<Step>, name: Seq<char>, text: Seq<char>) -> Option<Cache> {
    if c.files.contains_key(d) {
        Some(Cache { files: c.files.insert(d, c.files[d].insert(name, ContentView::Resident(text))), dirs: c.dirs })
    } else {
        None
    }
}

/// Writing with the listing `l` fetched for the directory.
pub open spec fn write_with(
    c: Cache,
    d: Seq<Step>,
    name: Seq<char>,
    text: Seq<char>,
    l: Map<Seq<char>, ContentView>,
) -> Cache {
    Cache { files: c.files.insert(d, l.insert(name, ContentView::Resident(text))), dirs: c.dirs }
}

/// Deleting a file from the cached listing of its directory, and whether it was there;
/// `None` when the listing is not cached.
pub open spec fn remove_file_cached(c: Cache, d: Seq<Step>, name: Seq<char>) -> Option<(Cache, bool)> {
    if c.files.contains_key(d) {
        Some((Cache { files: c.files.insert(d, c.files[d].remove(name)), dirs: c.dirs }, c.files[d].contains_key(name)))
    } else {
        None
    }
}

/// Deleting with the listing `l` fetched: the listing is cached, less the file when it holds it.
pub open spec fn remove_file_with(c: Cache, d: Seq<Step>, name: Seq<char>, l: Map<Seq<char>, ContentView>) -> Cache {
    Cache { files: c.files.insert(d, l.remove(name)), dirs: c.dirs }
}

/// Creating a directory whose parent's subdirectories are cached; `None` otherwise.
pub open spec fn create_dir_cached(c: Cache, d: Seq<Step>) -> Option<Cache> {
    match (parent_spec(d), last_name(d)) {
        (Some(p), Some(n)) => if c.dirs.contains_key(p) {
            Some(
                Cache {
                    files: c.files.insert(d, Map::empty()),
                    dirs: c.dirs.insert(p, c.dirs[p].insert(n)).insert(d, Set::empty()),
                },
            )
        } else {
            None
        },
        _ => None,
    }
}

/// Creating a directory with the parent's subdirectories `pd` fetched.
pub open spec fn create_dir_with(c: Cache, d: Seq<Step>, pd: Set<Seq<char>>) -> Cache {
    let p = parent_spec(d)->0;
    let n = last_name(d)->0;
    Cache { files: c.files.insert(d, Map::empty()), dirs: c.dirs.insert(p, pd.insert(n)).insert(d, Set::empty()) }
}

/// Removing a directory using its cached listings and its parent's cached subdirectories,
/// with the failure's message if it fails: a path without a parent is invalid; a directory
/// with a file or a subdirectory is not empty; an empty one goes, its name leaving its
/// parent. `None` when one of the three listings is not cached.
pub open spec fn remove_dir_cached(c: Cache, d: Seq<Step>) -> Option<(Cache, Option<Seq<char>>)> {
    match (parent_spec(d), last_name(d)) {
        (Some(p), Some(n)) => if !(c.files.contains_key(d) && c.dirs.contains_key(d) && c.dirs.contains_key(p)) {
            None
        } else if c.files[d].dom() != Set::<Seq<char>>::empty() || c.dirs[d] != Set::<Seq<char>>::empty() {
            Some((c, Some("Directory not empty"@)))
        } else {
            Some((Cache { files: c.files.remove(d), dirs: c.dirs.insert(p, c.dirs[p].remove(n)).remove(d) }, None))
        },
        _ => Some((c, Some("Invalid path"@))),
    }
}

/// The cache with the three listings that a directory removal reads.
pub open spec fn with_dir_data(
    c: Cache,
    d: Seq<Step>,
    l: Map<Seq<char>, ContentView>,
    sd: Set<Seq<char>>,
    pd: Set<Seq<char>>,
) -> Cache {
    Cache { files: c.files.insert(d, l), dirs: c.dirs.insert(d, sd).insert(parent_spec(d)->0, pd) }
}

/// Removing a directory with its listings and its parent's subdirectories fetched: they are
/// cached, then the directory goes if it is empty.
pub open spec fn remove_dir_with(
    c: Cache,
    d: Seq<Step>,
    l: Map<Seq<char>, ContentView>,
    sd: Set<Seq<char>>,
    pd: Set<Seq<char>>,
) -> Cache {
    let c1 = with_dir_data(c, d, l, sd, pd);
    if l.dom() == Set::<Seq<char>>::empty() && sd == Set::<Seq<char>>::empty() {
        Cache {
            files: c1.files.remove(d),
            dirs: c1.dirs.insert(parent_spec(d)->0, pd.remove(last_name(d)->0)).remove(d),
        }
    } else {
        c1
    }
}

/// The entries of `m` moved under `mount`.
pub open spec fn mounted<V>(m: Map<Seq<Step>, V>, mount: Seq<Step>) -> Map<Seq<Step>, V> {
    Map::new(
        |q: Seq<Step>| q.len() >= mount.len() && q.subrange(0, mount.len() as int) == mount
            && m.contains_key(q.subrange(mount.len() as int, q.len() as int)),
        |q: Seq<Step>| m[q.subrange(mount.len() as int, q.len() as int)],
    )
}

pub open spec fn keys_all_in<V>(m: Map<Seq<Step>, V>) -> bool {
    forall|k: Seq<Step>| #[trigger] m.contains_key(k) ==> all_in(k)
}

/// `c` with the entries of `t` mounted under `mount`, which win over those of `c`.
pub open spec fn merge_at(c: Cache, mount: Seq<Step>, t: Cache) -> Cache {
    Cache {
        files: c.files.union_prefer_right(mounted(t.files, mount)),
        dirs: c.dirs.union_prefer_right(mounted(t.dirs, mount)),
    }
}

pub proof fn lemma_mounted_insert<V>(m: Map<Seq<Step>, V>, mount: Seq<Step>, k: Seq<Step>, v: V)
    ensures
        mounted(m.insert(k, v), mount) == mounted(m, mount).insert(mount + k, v),
{
    let q0 = mount + k;
    assert(q0.subrange(0, mount.len() as int) =~= mount);
    assert(q0.subrange(mount.len() as int, q0.len() as int) =~= k);
    assert forall|q: Seq<Step>| #[trigger] mounted(m.insert(k, v), mount).contains_key(q) <==> mounted(m, mount).insert(mount + k, v).contains_key(q) by {
        if q.len() >= mount.len() && q.subrange(0, mount.len() as int) == mount && q.subrange(mount.len() as int, q.len() as int) == k {
            assert(q =~= mount + k);
        }
    }
    assert forall|q: Seq<Step>| #[trigger] mounted(m.insert(k, v), mount).contains_key(q) implies mounted(m.insert(k, v), mount)[q] == mounted(m, mount).insert(mount + k, v)[q] by {
        if q.subrange(mount.len() as int, q.len() as int) == k {
            assert(q =~= mount + k);
        } else if q == mount + k {
            assert(q.subrange(mount.len() as int, q.len() as int) =~= k);
        }
    }
    assert(mounted(m.insert(k, v), mount) =~= mounted(m, mount).insert(mount + k, v));
}

// ---- Laws of the mutation protocol ----

/// The cache as it would have been had the fetched listing of `d` been cached from the start.
pub open spec fn warm_files(c: Cache, d: Seq<Step>, l: Map<Seq<char>, ContentView>) -> Cache {
    Cache { files: c.files.insert(d, l), dirs: c.dirs }
}

/// A write that missed the cache and was retried with the fetched listing ends where the
/// write would have ended had that listing been cached from the start.
pub proof fn lemma_retry_write_matches_warm(
    c: Cache,
    d: Seq<Step>,
    name: Seq<char>,
    text: Seq<char>,
    l: Map<Seq<char>, ContentView>,
)
    ensures
        write_cached(warm_files(c, d, l), d, name, text) == Some(write_with(c, d, name, text, l)),
{
    assert(write_with(c, d, name, text, l).files =~= warm_files(c, d, l).files.insert(
        d,
        warm_files(c, d, l).files[d].insert(name, ContentView::Resident(text)),
    ));
}

/// A deletion retried with the fetched listing ends where it would have ended had the listing
/// been cached from the start, and succeeds in the same cases.
pub proof fn lemma_retry_remove_file_matches_warm(c: Cache, d: Seq<Step>, name: Seq<char>, l: Map<Seq<char>, ContentView>)
    ensures
        remove_file_cached(warm_files(c, d, l), d, name) == Some((remove_file_with(c, d, name, l), l.contains_key(name))),
{
    let w = warm_files(c, d, l);
    assert(remove_file_with(c, d, name, l).files =~= w.files.insert(d, w.files[d].remove(name)));
}

/// A directory creation retried with the parent's fetched subdirectories ends where it would
/// have ended had they been cached from the start.
pub proof fn lemma_retry_create_dir_matches_warm(c: Cache, d: Seq<Step>, pd: Set<Seq<char>>)
    requires
        parent_spec(d) is Some,
    ensures
        create_dir_cached(Cache { files: c.files, dirs: c.dirs.insert(parent_spec(d)->0, pd) }, d)
            == Some(create_dir_with(c, d, pd)),
{
    let p = parent_spec(d)->0;
    let w = Cache { files: c.files, dirs: c.dirs.insert(p, pd) };
    assert(create_dir_with(c, d, pd).dirs =~= w.dirs.insert(p, w.dirs[p].insert(last_name(d)->0)).insert(d, Set::empty()));
}

/// A directory removal retried with the fetched listings ends where it would have ended had
/// they been cached from the start, with the same outcome: removed when empty, else not
/// empty and the cache only holds the listings.
pub proof fn lemma_retry_remove_dir_matches_warm(
    c: Cache,
    d: Seq<Step>,
    l: Map<Seq<char>, ContentView>,
    sd: Set<Seq<char>>,
    pd: Set<Seq<char>>,
)
    requires
        parent_spec(d) is Some,
    ensures
        remove_dir_cached(with_dir_data(c, d, l, sd, pd), d) == Some((
            remove_dir_with(c, d, l, sd, pd),
            if l.dom() == Set::<Seq<char>>::empty() && sd == Set::<Seq<char>>::empty() {
                None
            } else {
                Some("Directory not empty"@)
            },
        )),
{
    let p = parent_spec(d)->0;
    let w = with_dir_data(c, d, l, sd, pd);
    assert(p.len() < d.len());
    assert(w.dirs[p] == pd);
    assert(w.dirs[d] == sd);
}

/// A directory that holds a file or a subdirectory is never removed: the cached attempt
/// reports it not empty and changes nothing, and the retry fails while the cache only gains
/// the fetched listings. An empty one is removed, with its own entries purged and its name
/// gone from its parent.
pub proof fn lemma_remove_dir_only_when_empty(
    c: Cache,
    d: Seq<Step>,
    l: Map<Seq<char>, ContentView>,
    sd: Set<Seq<char>>,
    pd: Set<Seq<char>>,
)
    requires
        parent_spec(d) is Some,
    ensures
        (l.dom() != Set::<Seq<char>>::empty() || sd != Set::<Seq<char>>::empty()) ==> {
            &&& remove_dir_with(c, d, l, sd, pd) == with_dir_data(c, d, l, sd, pd)
            &&& remove_dir_cached(with_dir_data(c, d, l, sd, pd), d)
                == Some((with_dir_data(c, d, l, sd, pd), Some("Directory not empty"@)))
        },
        (l.dom() == Set::<Seq<char>>::empty() && sd == Set::<Seq<char>>::empty()) ==> {
            let r = remove_dir_with(c, d, l, sd, pd);
            &&& !r.files.contains_key(d)
            &&& !r.dirs.contains_key(d)
            &&& r.dirs[parent_spec(d)->0] == pd.remove(last_name(d)->0)
        },
{
    let p = parent_spec(d)->0;
    let w = with_dir_data(c, d, l, sd, pd);
    assert(p.len() < d.len());
    assert(w.dirs[p] == pd);
    assert(w.dirs[d] == sd);
}

/// A sparse cache over the remote tree: listings of files and of subdirectories per directory.
pub struct AbyssFileSystem {
    files: Table<DirPath, Contents>,
    dirs: Table<DirPath, Directories>,
}

impl View for AbyssFileSystem {
    type V = Cache;

    closed spec fn view(&self) -> Cache {
        Cache { files: self.files@, dirs: self.dirs@ }
    }
}

impl AbyssFileSystem {
    pub closed spec fn wf(&self) -> bool {
        self.files.wf() && self.dirs.wf()
    }

    pub fn new() -> (r: AbyssFileSystem)
        ensures
            r.wf(),
            r@.files == FileMap::empty(),
            r@.dirs == DirMap::empty(),
    {
        AbyssFileSystem { files: Table::new(), dirs: Table::new() }
    }

    /// The cached file listing of `d`.
    pub fn cached_contents(&self, d: &DirPath) -> (r: Option<Contents>)
        requires
            self.wf(),
        ensures
            r matches Some(l) ==> l.wf() && self@.files.contains_key(d@) && self@.files[d@] == l@,
            r is None ==> !self@.files.contains_key(d@),
    {
        match self.files.get(d) {
            Some(l) => Some(l.copy()),
            None => None,
        }
    }

    /// The cached subdirectory listing of `d`.
    pub fn cached_directories(&self, d: &DirPath) -> (r: Option<Directories>)
        requires
            self.wf(),
        ensures
            r matches Some(l) ==> l.wf() && self@.dirs.contains_key(d@) && self@.dirs[d@] == l@,
            r is None ==> !self@.dirs.contains_key(d@),
    {
        match self.dirs.get(d) {
            Some(l) => Some(l.copy()),
            None => None,
        }
    }

    /// Caches the file listing of `d`.
    pub fn cache_contents(&mut self, d: DirPath, l: Contents)
        requires
            old(self).wf(),
            l.wf(),
        ensures
            final(self).wf(),
            final(self)@ == (Cache { files: old(self)@.files.insert(d@, l@), dirs: old(self)@.dirs }),
    {
        self.files.insert(d, l);
    }

    /// Caches the subdirectory listing of `d`.
    pub fn cache_directories(&mut self, d: DirPath, l: Directories)
        requires
            old(self).wf(),
            l.wf(),
        ensures
            final(self).wf(),
            final(self)@ == (Cache { files: old(self)@.files, dirs: old(self)@.dirs.insert(d@, l@) }),
    {
        self.dirs.insert(d, l);
    }

    /// Writes a file using cached data only.
    pub fn sync_write_file(&mut self, filepath: &FilePath, content: String) -> (r: Result<(), NeedsFetch>)
        requires
            old(self).wf(),
        ensures
            final(self).wf(),
            match write_cached(old(self)@, filepath.dir@, filepath.file@, content@) {
                Some(c) => r is Ok && final(self)@ == c,
                None => r is Err && final(self)@ == old(self)@,
            },
    {
        match self.files.remove(&filepath.dir) {
            Some(mut l) => {
                l.insert(filepath.file.clone(), Content::InMemory(content));
                self.files.insert(filepath.dir.clone(), l);
                assert(self@.files =~= old(self)@.files.insert(
                    filepath.dir@,
                    old(self)@.files[filepath.dir@].insert(filepath.file@, ContentView::Resident(content@)),
                ));
                Ok(())
            },
            None => {
                assert(self@.files =~= old(self)@.files);
                Err(NeedsFetch)
            },
        }
    }

    /// Writes a file into the fetched listing `contents`, which is cached.
    pub fn sync_write_file_with_data(&mut self, filepath: &FilePath, contents: Contents, content: String)
        requires
            old(self).wf(),
            contents.wf(),
        ensures
            final(self).wf(),
            final(self)@ == write_with(old(self)@, filepath.dir@, filepath.file@, content@, contents@),
    {
        let mut contents = contents;
        contents.insert(filepath.file.clone(), Content::InMemory(content));
        self.files.insert(filepath.dir.clone(), contents);
    }

    /// Deletes a file using cached data only, and says whether it was there. `Err` when the
    /// directory's listing is not cached.
    pub fn sync_remove_file(&mut self, filepath: &FilePath) -> (r: Result<bool, NeedsFetch>)
        requires
            old(self).wf(),
        ensures
            final(self).wf(),
            match remove_file_cached(old(self)@, filepath.dir@, filepath.file@) {
                Some((c, existed)) => r == Ok::<bool, NeedsFetch>(existed) && final(self)@ == c,
                None => r is Err && final(self)@ == old(self)@,
            },
    {
        match self.files.remove(&filepath.dir) {
            Some(mut l) => {
                let present = l.remove(filepath.file.as_str()).is_some();
                self.files.insert(filepath.dir.clone(), l);
                assert(self@.files =~= old(self)@.files.insert(
                    filepath.dir@,
                    old(self)@.files[filepath.dir@].remove(filepath.file@),
                ));
                Ok(present)
            },
            None => {
                assert(self@.files =~= old(self)@.files);
                Err(NeedsFetch)
            },
        }
    }

    /// Deletes a file from the fetched listing `contents`, which is cached; fails when the
    /// listing does not hold the file.
    pub fn sync_remove_file_with_data(&mut self, filepath: &FilePath, contents: Contents) -> (r: Result<(), String>)
        requires
            old(self).wf(),
            contents.wf(),
        ensures
            final(self).wf(),
            final(self)@ == remove_file_with(old(self)@, filepath.dir@, filepath.file@, contents@),
            r is Ok <==> contents@.contains_key(filepath.file@),
            r matches Err(e) ==> e@ == "No such file: "@ + crate::path::file_text(filepath.dir@, filepath.file@),
    {
        let mut contents = contents;
        let present = contents.remove(filepath.file.as_str()).is_some();
        self.files.insert(filepath.dir.clone(), contents);
        if present {
            Ok(())
        } else {
            let mut e = String::from_str("No such file: ");
            e.append(filepath.to_string().as_str());
            Err(e)
        }
    }

    /// Creates a directory using cached data only: the parent's subdirectories must be cached.
    pub fn sync_create_dir(&mut self, dirpath: &DirPath) -> (r: Result<(), NeedsFetch>)
        requires
            old(self).wf(),
        ensures
            final(self).wf(),
            match create_dir_cached(old(self)@, dirpath@) {
                Some(c) => r is Ok && final(self)@ == c,
                None => r is Err && final(self)@ == old(self)@,
            },
    {
        let parent = match dirpath.super_dir() {
            Some(p) => p,
            None => return Err(NeedsFetch),
        };
        let name = match dirpath.final_component() {
            Some(n) => String::from_str(n),
            None => return Err(NeedsFetch),
        };
        match self.dirs.remove(&parent) {
            Some(mut pd) => {
                let ghost pv = parent@;
                let ghost nv = name@;
                assert(pv.len() < dirpath@.len());
                pd.insert(name);
                self.dirs.insert(parent, pd);
                self.files.insert(dirpath.clone(), Contents::new());
                self.dirs.insert(dirpath.clone(), Directories::new());
                assert(self@.files =~= old(self)@.files.insert(dirpath@, Map::empty()));
                assert(self@.dirs =~= old(self)@.dirs.insert(pv, old(self)@.dirs[pv].insert(nv)).insert(dirpath@, Set::empty()));
                Ok(())
            },
            None => {
                assert(self@.dirs =~= old(self)@.dirs);
                Err(NeedsFetch)
            },
        }
    }

    /// Creates a directory with the parent's subdirectories `parent_dirs` fetched.
    pub fn sync_create_dir_with_data(&mut self, dirpath: &DirPath, parent_dirs: Directories) -> (r: Result<(), String>)
        requires
            old(self).wf(),
            parent_dirs.wf(),
        ensures
            final(self).wf(),
            parent_spec(dirpath@) is Some ==> r is Ok && final(self)@ == create_dir_with(old(self)@, dirpath@, parent_dirs@),
            parent_spec(dirpath@) is None ==> (r matches Err(e) && e@ == "Invalid path"@) && final(self)@ == old(self)@,
    {
        match (dirpath.super_dir(), dirpath.final_component()) {
            (Some(parent), Some(n)) => {
                let mut parent_dirs = parent_dirs;
                parent_dirs.insert(String::from_str(n));
                self.dirs.insert(parent, parent_dirs);
                self.files.insert(dirpath.clone(), Contents::new());
                self.dirs.insert(dirpath.clone(), Directories::new());
                Ok(())
            },
            _ => Err(String::from_str("Invalid path")),
        }
    }

    /// Removes a directory using cached data only, with its outcome; see `remove_dir_cached`.
    /// `Err` when a listing it reads is not cached.
    pub fn sync_remove_dir(&mut self, dirpath: &DirPath) -> (r: Result<Result<(), String>, NeedsFetch>)
        requires
            old(self).wf(),
        ensures
            final(self).wf(),
            match remove_dir_cached(old(self)@, dirpath@) {
                Some((c, None)) => r == Ok::<Result<(), String>, NeedsFetch>(Ok(())) && final(self)@ == c,
                Some((c, Some(m))) => (r matches Ok(Err(e)) && e@ == m) && final(self)@ == c,
                None => r is Err && final(self)@ == old(self)@,
            },
    {
        let (parent, name) = match (dirpath.super_dir(), dirpath.final_component()) {
            (Some(p), Some(n)) => (p, n),
            _ => return Ok(Err(String::from_str("Invalid path"))),
        };
        let empty = match (self.files.get(dirpath), self.dirs.get(dirpath)) {
            (Some(l), Some(sd)) => l.is_empty() && sd.is_empty(),
            _ => return Err(NeedsFetch),
        };
        if !self.dirs.contains_key(&parent) {
            return Err(NeedsFetch);
        }
        if !empty {
            return Ok(Err(String::from_str("Directory not empty")));
        }
        match self.dirs.remove(&parent) {
            Some(mut pd) => {
                let ghost pv = parent@;
                assert(pv.len() < dirpath@.len());
                pd.remove(name);
                self.dirs.insert(parent, pd);
                self.files.remove(dirpath);
                self.dirs.remove(dirpath);
                assert(self@.files =~= old(self)@.files.remove(dirpath@));
                assert(self@.dirs =~= old(self)@.dirs.insert(pv, old(self)@.dirs[pv].remove(name@)).remove(dirpath@));
                Ok(Ok(()))
            },
            None => Err(NeedsFetch),
        }
    }

    /// Removes a directory with its listings and its parent's subdirectories fetched. They are
    /// cached; the directory goes only when it has no file and no subdirectory.
    pub fn sync_remove_dir_with_data(
        &mut self,
        dirpath: &DirPath,
        contents: Contents,
        directories: Directories,
        parent_dirs: Directories,
    ) -> (r: Result<(), String>)
        requires
            old(self).wf(),
            contents.wf(),
            directories.wf(),
            parent_dirs.wf(),
        ensures
            final(self).wf(),
            parent_spec(dirpath@) is None ==> (r matches Err(e) && e@ == "Invalid path"@) && final(self)@ == old(self)@,
            parent_spec(dirpath@) is Some ==> final(self)@ == remove_dir_with(old(self)@, dirpath@, contents@, directories@, parent_dirs@),
            parent_spec(dirpath@) is Some ==> (r is Ok <==> contents@.dom() == Set::<Seq<char>>::empty() && directories@ == Set::<Seq<char>>::empty()),
            parent_spec(dirpath@) is Some && r is Err ==> (r matches Err(e) && e@ == "Directory not empty"@),
    {
        let (parent, name) = match (dirpath.super_dir(), dirpath.final_component()) {
            (Some(p), Some(n)) => (p, String::from_str(n)),
            _ => return Err(String::from_str("Invalid path")),
        };
        let empty = contents.is_empty() && directories.is_empty();
        if !empty {
            self.files.insert(dirpath.clone(), contents);
            self.dirs.insert(dirpath.clone(), directories);
            self.dirs.insert(parent, parent_dirs);
            return Err(String::from_str("Directory not empty"));
        }
        let ghost pv = parent@;
        let ghost pdv = parent_dirs@;
        assert(pv.len() < dirpath@.len());
        let mut parent_dirs = parent_dirs;
        parent_dirs.remove(name.as_str());
        self.files.insert(dirpath.clone(), contents);
        self.dirs.insert(dirpath.clone(), directories);
        self.dirs.insert(parent, parent_dirs);
        self.files.remove(dirpath);
        self.dirs.remove(dirpath);
        proof {
            let c1 = with_dir_data(old(self)@, dirpath@, contents@, directories@, pdv);
            assert(self@.files =~= c1.files.remove(dirpath@));
            assert(self@.dirs =~= c1.dirs.insert(pv, pdv.remove(name@)).remove(dirpath@));
        }
        Ok(())
    }
}

impl AbyssFileSystem {
    /// Adds the entries of `other`, each moved under `mount` by concatenation.
    pub fn merge_at(&mut self, mount: &DirPath, other: &AbyssFileSystem)
        requires
            old(self).wf(),
            other.wf(),
            keys_all_in(other@.files),
            keys_all_in(other@.dirs),
        ensures
            final(self).wf(),
            final(self)@ == merge_at(old(self)@, mount@, other@),
    {
        let ghost start = self@;
        let ghost s = other.files.pairs();
        let n = other.files.len();
        assert(s.subrange(0, 0) =~= Seq::<(Seq<Step>, Map<Seq<char>, ContentView>)>::empty());
        assert(start.files.union_prefer_right(mounted(map_of(s.subrange(0, 0)), mount@)) =~= start.files);
        let mut i: usize = 0;
        while i < n
            invariant
                i <= n,
                n == s.len(),
                s == other.files.pairs(),
                other.wf(),
                keys_all_in(other@.files),
                self.wf(),
                self@.dirs == start.dirs,
                self@.files == start.files.union_prefer_right(mounted(map_of(s.subrange(0, i as int)), mount@)),
            decreases n - i,
        {
            let k = other.files.key_at(i);
            proof {
                lemma_map_of_at(s, i as int);
                lemma_replay_descents(mount@, k@, false);
                lemma_map_of_prefix(s, i as int);
                lemma_mounted_insert(map_of(s.subrange(0, i as int)), mount@, s[i as int].0, s[i as int].1);
            }
            let v = other.files.value_at(i).copy();
            self.files.insert(mount.concat(k, false), v);
            assert(self@.files =~= start.files.union_prefer_right(mounted(map_of(s.subrange(0, i + 1)), mount@)));
            i += 1;
        }
        assert(s.subrange(0, s.len() as int) =~= s);
        let ghost t = other.dirs.pairs();
        let m = other.dirs.len();
        assert(t.subrange(0, 0) =~= Seq::<(Seq<Step>, Set<Seq<char>>)>::empty());
        assert(start.dirs.union_prefer_right(mounted(map_of(t.subrange(0, 0)), mount@)) =~= start.dirs);
        let ghost files_done = self@.files;
        let mut j: usize = 0;
        while j < m
            invariant
                j <= m,
                m == t.len(),
                t == other.dirs.pairs(),
                other.wf(),
                keys_all_in(other@.dirs),
                self.wf(),
                self@.files == files_done,
                self@.dirs == start.dirs.union_prefer_right(mounted(map_of(t.subrange(0, j as int)), mount@)),
            decreases m - j,
        {
            let k = other.dirs.key_at(j);
            proof {
                lemma_map_of_at(t, j as int);
                lemma_replay_descents(mount@, k@, false);
                lemma_map_of_prefix(t, j as int);
                lemma_mounted_insert(map_of(t.subrange(0, j as int)), mount@, t[j as int].0, t[j as int].1);
            }
            let v = other.dirs.value_at(j).copy();
            self.dirs.insert(mount.concat(k, false), v);
            assert(self@.dirs =~= start.dirs.union_prefer_right(mounted(map_of(t.subrange(0, j + 1)), mount@)));
            j += 1;
        }
        assert(t.subrange(0, t.len() as int) =~= t);
        assert(map_of(t) == other@.dirs);
        assert(map_of(s) == other@.files);
        assert(self@.files == merge_at(start, mount@, other@).files);
        assert(self@.dirs == merge_at(start, mount@, other@).dirs);
    }
}

impl AbyssFileSystem {
    /// The number of cached file listings.
    pub fn listing_count(&self) -> (r: usize)
        requires
            self.wf(),
        ensures
            r == self.listing_pairs().len(),
            self@.files == map_of(self.listing_pairs()),
    {
        self.files.len()
    }

    /// The `i`th cached file listing and its directory.
    pub fn listing_at(&self, i: usize) -> (r: (&DirPath, &Contents))
        requires
            self.wf(),
            i < self.listing_pairs().len(),
        ensures
            r.0@ == self.listing_pairs()[i as int].0,
            r.1@ == self.listing_pairs()[i as int].1,
            r.1.wf(),
            self@.files.contains_key(r.0@),
    {
        proof {
            lemma_map_of_at(self.files.pairs(), i as int);
        }
        (self.files.key_at(i), self.files.value_at(i))
    }

    /// The cached file listings have unique directories.
    pub proof fn lemma_listing_layout(&self)
        requires
            self.wf(),
        ensures
            crate::table::unique_keys(self.listing_pairs()),
    {
    }

    pub closed spec fn listing_pairs(&self) -> Seq<(Seq<Step>, Map<Seq<char>, ContentView>)> {
        self.files.pairs()
    }
}

} // verus!
