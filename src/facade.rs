use vstd::prelude::*;

use crate::dice::{build_cave_of_dice, cave_ok, dice_file_size, is_dice_file_name, roll_message, CAVE_NAME};
use crate::eager::{child_names, ensure_dir, files_in, has_descendant, Tree, VirtualFilesystem};
use crate::numbers::decimal;
use crate::overlay::{
    create_dir_cached, create_dir_with, merge_at, remove_dir_cached, remove_dir_with, remove_file_cached,
    remove_file_with, write_cached, write_with, AbyssFileSystem, Cache, NeedsFetch,
};
use crate::path::{dir_text, file_text, last_name, parent_spec, url_text, DirPath, FilePath, NextDir, Step};
use crate::store::{pending_listing, Content, ContentView, Contents, Directories};
use crate::text::{insert_sorted, listing_names, sorted_texts, texts_of};

verus! {

pub open spec fn abyss_name() -> Seq<char> {
    seq!['a', 'b', 'y', 's', 's']
}

/// A path whose first move enters the remote root is served by the caching overlay.
pub open spec fn in_abyss_spec(p: Seq<Step>) -> bool {
    p.len() > 0 && p[0] == Step::In(abyss_name())
}

/// `x` is the first position of the maze's mount name in `p`.
pub open spec fn cave_at(p: Seq<Step>, x: int) -> bool {
    &&& 0 <= x < p.len()
    &&& p[x] == Step::In(CAVE_NAME@)
    &&& forall|j: int| 0 <= j < x ==> #[trigger] p[j] != Step::In(CAVE_NAME@)
}

pub open spec fn touches_cave(p: Seq<Step>) -> bool {
    exists|x: int| cave_at(p, x)
}

/// A lookup of `p`: the first one whose moves name the maze's mount merges the maze there;
/// every other leaves the cache alone.
pub open spec fn lookup(c: Cache, merged: bool, p: Seq<Step>, maze: Cache) -> (Cache, bool) {
    if touches_cave(p) {
        if merged {
            (c, true)
        } else {
            let x = choose|x: int| cave_at(p, x);
            (merge_at(c, p.subrange(0, x + 1), maze), true)
        }
    } else {
        (c, merged)
    }
}

pub open spec fn lookups(c: Cache, merged: bool, paths: Seq<Seq<Step>>, maze: Cache) -> (Cache, bool)
    decreases paths.len(),
{
    if paths.len() == 0 {
        (c, merged)
    } else {
        let prev = lookups(c, merged, paths.drop_last(), maze);
        lookup(prev.0, prev.1, paths.last(), maze)
    }
}

/// The maze is merged at most once: once merged, any sequence of lookups leaves the cache
/// as it is; and looking up the same path any number of times does what one lookup does.
pub proof fn lemma_merge_at_most_once(c: Cache, merged: bool, paths: Seq<Seq<Step>>, maze: Cache)
    ensures
        lookups(c, true, paths, maze) == (c, true),
        paths.len() > 0 && (forall|i: int| 0 <= i < paths.len() ==> #[trigger] paths[i] == paths[0])
            ==> lookups(c, merged, paths, maze) == lookup(c, merged, paths[0], maze),
    decreases paths.len(),
{
    if paths.len() > 0 {
        let rest = paths.drop_last();
        lemma_merge_at_most_once(c, merged, rest, maze);
        if forall|i: int| 0 <= i < paths.len() ==> #[trigger] paths[i] == paths[0] {
            let p = paths[0];
            let once = lookup(c, merged, p, maze);
            assert(paths.last() == paths[paths.len() - 1]);
            assert(paths.last() == p);
            if paths.len() == 1 {
                assert(rest.len() == 0);
                assert(lookups(c, merged, rest, maze) == (c, merged));
            } else {
                assert forall|i: int| 0 <= i < rest.len() implies #[trigger] rest[i] == rest[0] by {
                    assert(rest[i] == paths[i]);
                    assert(rest[0] == paths[0]);
                }
                assert(rest[0] == p);
                assert(lookups(c, merged, rest, maze) == once);
                assert(lookup(once.0, once.1, p, maze) == once);
            }
        }
    }
}

/// The merged listing of a directory: subdirectories with a trailing separator, and files.
pub open spec fn listing_entries(dirs: Set<Seq<char>>, files: Set<Seq<char>>) -> Set<Seq<char>> {
    Set::new(|x: Seq<char>| exists|n: Seq<char>| #[trigger] dirs.contains(n) && x == n + seq!['/']).union(files)
}

/// What a read of a file resolves to.
pub enum Reading {
    /// The file's text.
    Text(String),
    /// The file's text is to be fetched from this URL.
    Fetch(String),
    /// The file is not there; the message says so.
    Missing(String),
}

/// The state of the façade.
pub struct Stores {
    pub eager: Tree,
    pub cache: Cache,
    pub merged: bool,
    pub maze: Cache,
    pub cwd: Seq<Step>,
}

/// Routes every store operation to the eager store or to the caching overlay, and keeps the
/// current directory.
pub struct Resolver {
    pub eager: VirtualFilesystem,
    overlay: AbyssFileSystem,
    maze: AbyssFileSystem,
    maze_merged: bool,
    current_dir: DirPath,
}

impl View for Resolver {
    type V = Stores;

    closed spec fn view(&self) -> Stores {
        Stores {
            eager: self.eager@,
            cache: self.overlay@,
            merged: self.maze_merged,
            maze: self.maze@,
            cwd: self.current_dir@,
        }
    }
}

/// Whether the path's first move enters the remote root.
pub fn path_in_abyss(path: &DirPath) -> (r: bool)
    ensures
        r == in_abyss_spec(path@),
{
    if path.0.len() == 0 {
        return false;
    }
    proof {
        reveal_strlit("abyss");
        assert("abyss"@ =~= abyss_name());
    }
    match &path.0[0] {
        NextDir::In(x) => *x == String::from_str("abyss"),
        NextDir::Out => false,
    }
}

/// Whether `path` exists, given the subdirectories of its parent: the root always does.
pub fn dir_exists_in(path: &DirPath, parent_dirs: &Directories) -> (r: bool)
    requires
        parent_dirs.wf(),
    ensures
        r == (path@.len() == 0 || (parent_spec(path@) is Some && parent_dirs@.contains(last_name(path@)->0))),
{
    if path.0.len() == 0 {
        return true;
    }
    match path.final_component() {
        Some(name) => parent_dirs.contains(name),
        None => false,
    }
}

/// The merged, sorted listing of a directory: each subdirectory with a trailing separator,
/// and each file.
pub fn list_directory(dirs: &Directories, contents: &Contents) -> (r: Vec<String>)
    requires
        dirs.wf(),
        contents.wf(),
    ensures
        sorted_texts(texts_of(r@)),
        texts_of(r@).to_set() == listing_entries(dirs@, contents@.dom()),
{
    let dir_names = dirs.sorted_names();
    let file_names = contents.sorted_names();
    let ghost ds = texts_of(dir_names@);
    let ghost fs = texts_of(file_names@);
    let mut out: Vec<String> = Vec::new();
    proof {
        reveal_strlit("/");
        assert("/"@ =~= seq!['/']);
        assert(texts_of(out@).to_set() =~= Set::new(|x: Seq<char>| exists|j: int| 0 <= j < 0 && x == #[trigger] ds[j] + seq!['/']));
    }
    let mut i: usize = 0;
    while i < dir_names.len()
        invariant
            i <= dir_names.len(),
            ds == texts_of(dir_names@),
            "/"@ == seq!['/'],
            sorted_texts(texts_of(out@)),
            texts_of(out@).to_set() == Set::new(|x: Seq<char>| exists|j: int| 0 <= j < i && x == #[trigger] ds[j] + seq!['/']),
        decreases dir_names.len() - i,
    {
        let mut entry = dir_names[i].clone();
        entry.append("/");
        let ghost before = texts_of(out@).to_set();
        insert_sorted(&mut out, entry);
        proof {
            assert forall|x: Seq<char>| #[trigger] texts_of(out@).to_set().contains(x) <==> (exists|j: int| 0 <= j < i + 1 && x == #[trigger] ds[j] + seq!['/']) by {
                if x == ds[i as int] + seq!['/'] {
                    assert(texts_of(out@).to_set().contains(x));
                }
            }
            assert(texts_of(out@).to_set() =~= Set::new(|x: Seq<char>| exists|j: int| 0 <= j < i + 1 && x == #[trigger] ds[j] + seq!['/']));
        }
        i += 1;
    }
    proof {
        let slashed = Set::new(|x: Seq<char>| exists|n: Seq<char>| #[trigger] dirs@.contains(n) && x == n + seq!['/']);
        assert forall|x: Seq<char>| #[trigger] texts_of(out@).to_set().contains(x) <==> slashed.contains(x) by {
            if texts_of(out@).to_set().contains(x) {
                let j = choose|j: int| 0 <= j < ds.len() && x == #[trigger] ds[j] + seq!['/'];
                assert(ds.to_set().contains(ds[j]));
                assert(dirs@.contains(ds[j]));
            }
            if slashed.contains(x) {
                let n = choose|n: Seq<char>| #[trigger] dirs@.contains(n) && x == n + seq!['/'];
                assert(ds.to_set().contains(n));
                let j = choose|j: int| 0 <= j < ds.len() && ds[j] == n;
                assert(x == ds[j] + seq!['/']);
            }
        }
        assert(texts_of(out@).to_set() =~= slashed);
    }
    let ghost dir_part = texts_of(out@).to_set();
    assert(dir_part.union(fs.subrange(0, 0).to_set()) =~= dir_part);
    let mut j: usize = 0;
    while j < file_names.len()
        invariant
            j <= file_names.len(),
            fs == texts_of(file_names@),
            sorted_texts(texts_of(out@)),
            texts_of(out@).to_set() == dir_part.union(fs.subrange(0, j as int).to_set()),
        decreases file_names.len() - j,
    {
        insert_sorted(&mut out, file_names[j].clone());
        proof {
            assert(fs.subrange(0, j + 1) =~= fs.subrange(0, j as int).push(fs[j as int]));
            assert forall|x: Seq<char>| #[trigger] fs.subrange(0, j + 1).to_set().contains(x) <==> fs.subrange(0, j as int).to_set().insert(fs[j as int]).contains(x) by {
                if fs.subrange(0, j + 1).to_set().contains(x) {
                    let k = choose|k: int| 0 <= k < j + 1 && #[trigger] fs.subrange(0, j + 1)[k] == x;
                    if k < j {
                        assert(fs.subrange(0, j as int)[k] == x);
                    }
                }
                if fs.subrange(0, j as int).to_set().contains(x) {
                    let k = choose|k: int| 0 <= k < j && #[trigger] fs.subrange(0, j as int)[k] == x;
                    assert(fs.subrange(0, j + 1)[k] == x);
                }
                if x == fs[j as int] {
                    assert(fs.subrange(0, j + 1)[j as int] == x);
                }
            }
            assert(texts_of(out@).to_set() =~= dir_part.union(fs.subrange(0, j + 1).to_set()));
        }
        j += 1;
    }
    assert(fs.subrange(0, fs.len() as int) =~= fs);
    out
}

impl Resolver {
    pub closed spec fn wf(&self) -> bool {
        &&& self.eager.wf()
        &&& self.overlay.wf()
        &&& self.maze.wf()
        &&& cave_ok(self.maze@)
    }

    /// Empty stores at the root, with the maze built at random and not yet merged.
    pub fn new() -> (r: Resolver)
        ensures
            r.wf(),
            r@.eager == Tree::empty(),
            r@.cache.files == Map::<Seq<Step>, Map<Seq<char>, ContentView>>::empty(),
            r@.cache.dirs == Map::<Seq<Step>, Set<Seq<char>>>::empty(),
            !r@.merged,
            cave_ok(r@.maze),
            r@.cwd == Seq::<Step>::empty(),
    {
        Resolver {
            eager: VirtualFilesystem::new(),
            overlay: AbyssFileSystem::new(),
            maze: build_cave_of_dice(),
            maze_merged: false,
            current_dir: DirPath::root(),
        }
    }

    pub fn current_dir(&self) -> (r: &DirPath)
        ensures
            r@ == self@.cwd,
    {
        &self.current_dir
    }

    pub fn set_current_dir(&mut self, dir: DirPath)
        requires
            old(self).wf(),
        ensures
            final(self).wf(),
            final(self)@ == (Stores { cwd: dir@, ..old(self)@ }),
    {
        self.current_dir = dir;
    }

    /// The current directory as text.
    pub fn get_current_dir_string(&self) -> (r: String)
        ensures
            r@ == dir_text(self@.cwd),
    {
        self.current_dir.to_string()
    }

    /// Whether the current directory is served by the caching overlay.
    pub fn in_abyss(&self) -> (r: bool)
        ensures
            r == in_abyss_spec(self@.cwd),
    {
        path_in_abyss(&self.current_dir)
    }

    /// The lookup of `path`: merges the maze on the first lookup that names its mount; says
    /// whether the path names the mount and is served by the overlay.
    pub fn path_in_cave_of_dice(&mut self, path: &DirPath) -> (r: bool)
        requires
            old(self).wf(),
        ensures
            final(self).wf(),
            (final(self)@.cache, final(self)@.merged) == lookup(old(self)@.cache, old(self)@.merged, path@, old(self)@.maze),
            final(self)@.eager == old(self)@.eager,
            final(self)@.maze == old(self)@.maze,
            final(self)@.cwd == old(self)@.cwd,
            r == (touches_cave(path@) && in_abyss_spec(path@)),
    {
        let cave = String::from_str(CAVE_NAME);
        let mut i: usize = 0;
        while i < path.0.len()
            invariant
                i <= path.0.len(),
                self.wf(),
                self@ == old(self)@,
                cave@ == CAVE_NAME@,
                forall|j: int| 0 <= j < i ==> #[trigger] path@[j] != Step::In(CAVE_NAME@),
            decreases path.0.len() - i,
        {
            let hit = match &path.0[i] {
                NextDir::In(x) => *x == cave,
                NextDir::Out => false,
            };
            if hit {
                assert(cave_at(path@, i as int));
                if !self.maze_merged {
                    let mount = path.prefix(i + 1);
                    proof {
                        let x = choose|x: int| cave_at(path@, x);
                        assert(x == i) by {
                            if x < i {
                                assert(path@[x] != Step::In(CAVE_NAME@));
                            } else if x > i {
                                assert(path@[i as int] != Step::In(CAVE_NAME@));
                            }
                        }
                    }
                    self.overlay.merge_at(&mount, &self.maze);
                    self.maze_merged = true;
                }
                return path_in_abyss(path);
            }
            i += 1;
        }
        assert(!touches_cave(path@)) by {
            if touches_cave(path@) {
                let x = choose|x: int| cave_at(path@, x);
                assert(path@[x] != Step::In(CAVE_NAME@));
            }
        }
        false
    }

    /// The files of `dir` when they are known without fetching: from the eager store, or
    /// from the overlay's cache (after the lookup). `None` asks for the listing to be fetched.
    pub fn contents_of(&mut self, dir: &DirPath) -> (r: Option<Contents>)
        requires
            old(self).wf(),
        ensures
            final(self).wf(),
            !in_abyss_spec(dir@) ==> final(self)@ == old(self)@ && (r matches Some(l) && l.wf() && l@ == files_in(old(self)@.eager, dir@)),
            in_abyss_spec(dir@) ==> {
                let (c, m) = lookup(old(self)@.cache, old(self)@.merged, dir@, old(self)@.maze);
                &&& final(self)@ == (Stores { cache: c, merged: m, ..old(self)@ })
                &&& (r matches Some(l) ==> l.wf() && c.files.contains_key(dir@) && l@ == c.files[dir@])
                &&& (r is None ==> !c.files.contains_key(dir@))
            },
    {
        if path_in_abyss(dir) {
            self.path_in_cave_of_dice(dir);
            self.overlay.cached_contents(dir)
        } else {
            Some(self.eager.listing(dir))
        }
    }

    /// Caches and returns the fetched `!!contents.txt` listing of `dir`.
    pub fn contents_fetched(&mut self, dir: &DirPath, text: &str) -> (r: Contents)
        requires
            old(self).wf(),
        ensures
            final(self).wf(),
            r.wf(),
            r@ == pending_listing(listing_names(text@)),
            final(self)@ == (Stores { cache: Cache { files: old(self)@.cache.files.insert(dir@, r@), dirs: old(self)@.cache.dirs }, ..old(self)@ }),
    {
        let l = Contents::from_file(text);
        self.overlay.cache_contents(dir.clone(), l.copy());
        l
    }

    /// The subdirectories of `dir` when they are known without fetching: the eager store's
    /// entries one move below it, or the overlay's cache (after the lookup). `None` asks for
    /// the listing to be fetched.
    pub fn directories_of(&mut self, dir: &DirPath) -> (r: Option<Directories>)
        requires
            old(self).wf(),
        ensures
            final(self).wf(),
            !in_abyss_spec(dir@) ==> final(self)@ == old(self)@ && (r matches Some(l) && l.wf() && l@ == child_names(old(self)@.eager, dir@)),
            in_abyss_spec(dir@) ==> {
                let (c, m) = lookup(old(self)@.cache, old(self)@.merged, dir@, old(self)@.maze);
                &&& final(self)@ == (Stores { cache: c, merged: m, ..old(self)@ })
                &&& (r matches Some(l) ==> l.wf() && c.dirs.contains_key(dir@) && l@ == c.dirs[dir@])
                &&& (r is None ==> !c.dirs.contains_key(dir@))
            },
    {
        if path_in_abyss(dir) {
            self.path_in_cave_of_dice(dir);
            self.overlay.cached_directories(dir)
        } else {
            let names = self.eager.list_subdirs_in_dir(dir);
            let ghost ns = texts_of(names@);
            let mut l = Directories::new();
            assert(l@ =~= ns.subrange(0, 0).to_set());
            let mut i: usize = 0;
            while i < names.len()
                invariant
                    i <= names.len(),
                    ns == texts_of(names@),
                    l.wf(),
                    l@ == ns.subrange(0, i as int).to_set(),
                decreases names.len() - i,
            {
                l.insert(names[i].clone());
                proof {
                    assert(ns.subrange(0, i + 1) =~= ns.subrange(0, i as int).push(ns[i as int]));
                    assert forall|x: Seq<char>| #[trigger] ns.subrange(0, i + 1).to_set().contains(x) <==> ns.subrange(0, i as int).to_set().insert(ns[i as int]).contains(x) by {
                        if ns.subrange(0, i + 1).to_set().contains(x) {
                            let k = choose|k: int| 0 <= k < i + 1 && #[trigger] ns.subrange(0, i + 1)[k] == x;
                            if k < i {
                                assert(ns.subrange(0, i as int)[k] == x);
                            }
                        }
                        if ns.subrange(0, i as int).to_set().contains(x) {
                            let k = choose|k: int| 0 <= k < i && #[trigger] ns.subrange(0, i as int)[k] == x;
                            assert(ns.subrange(0, i + 1)[k] == x);
                        }
                        if x == ns[i as int] {
                            assert(ns.subrange(0, i + 1)[i as int] == x);
                        }
                    }
                    assert(l@ =~= ns.subrange(0, i + 1).to_set());
                }
                i += 1;
            }
            assert(ns.subrange(0, ns.len() as int) =~= ns);
            Some(l)
        }
    }

    /// Caches and returns the fetched `!!directories.txt` listing of `dir`.
    pub fn directories_fetched(&mut self, dir: &DirPath, text: &str) -> (r: Directories)
        requires
            old(self).wf(),
        ensures
            final(self).wf(),
            r.wf(),
            r@ == listing_names(text@).to_set(),
            final(self)@ == (Stores { cache: Cache { files: old(self)@.cache.files, dirs: old(self)@.cache.dirs.insert(dir@, r@) }, ..old(self)@ }),
    {
        let l = Directories::from_file(text);
        self.overlay.cache_directories(dir.clone(), l.copy());
        l
    }
}

/// The eager store can remove `d`: it has an entry, no file, and no entry below it.
pub open spec fn eager_can_remove(m: Tree, d: Seq<Step>) -> bool {
    m.contains_key(d) && m[d].dom() == Set::<Seq<char>>::empty() && !has_descendant(m, d)
}

impl Resolver {
    /// What reading the file gives, from its entry in its directory's listing. Resident text
    /// is returned; a pending dice file in the maze is rolled afresh; any other pending file
    /// is to be fetched from its URL.
    pub fn read_content_at(&mut self, content: Option<&Content>, filepath: &FilePath) -> (r: Reading)
        requires
            old(self).wf(),
        ensures
            final(self).wf(),
            match content {
                None => final(self)@ == old(self)@ && (r matches Reading::Missing(m)
                    && m@ == file_text(filepath.dir@, filepath.file@) + ": No such file"@),
                Some(c) => match c@ {
                    ContentView::Resident(text) => final(self)@ == old(self)@ && (r matches Reading::Text(t) && t@ == text),
                    ContentView::Pending => {
                        let (cache, merged) = lookup(old(self)@.cache, old(self)@.merged, filepath.dir@, old(self)@.maze);
                        let dice = touches_cave(filepath.dir@) && in_abyss_spec(filepath.dir@) && (dice_file_size(filepath.file@) matches Some(n) && n >= 1);
                        &&& final(self)@ == (Stores { cache, merged, ..old(self)@ })
                        &&& dice ==> (r matches Reading::Text(t) && exists|k: nat| 1 <= k <= dice_file_size(filepath.file@)->0 && t@ == "You rolled a "@ + decimal(k))
                        &&& !dice ==> (r matches Reading::Fetch(u) && u@ == url_text(filepath.dir@, filepath.file@))
                    },
                },
            },
    {
        match content {
            Some(Content::InMemory(text)) => Reading::Text(text.clone()),
            Some(Content::ToFetch) => {
                if self.path_in_cave_of_dice(&filepath.dir) {
                    match is_dice_file_name(filepath.file.as_str()) {
                        Some(n) => {
                            if n >= 1 {
                                return Reading::Text(roll_message(n));
                            }
                        },
                        None => {},
                    }
                }
                Reading::Fetch(filepath.to_url())
            },
            None => {
                let mut m = filepath.to_string();
                m.append(": No such file");
                Reading::Missing(m)
            },
        }
    }

    /// Writes a file: in the eager store, or in the overlay's cached listing. `Err` asks for
    /// the directory's listing to be fetched and handed to `write_file_fetched`.
    pub fn write_file(&mut self, filepath: &FilePath, content: String) -> (r: Result<(), NeedsFetch>)
        requires
            old(self).wf(),
        ensures
            final(self).wf(),
            !in_abyss_spec(filepath.dir@) ==> r is Ok && final(self)@ == (Stores {
                eager: old(self)@.eager.insert(
                    filepath.dir@,
                    files_in(old(self)@.eager, filepath.dir@).insert(filepath.file@, ContentView::Resident(content@)),
                ),
                ..old(self)@
            }),
            in_abyss_spec(filepath.dir@) ==> {
                let (c1, m1) = lookup(old(self)@.cache, old(self)@.merged, filepath.dir@, old(self)@.maze);
                match write_cached(c1, filepath.dir@, filepath.file@, content@) {
                    Some(c2) => r is Ok && final(self)@ == (Stores { cache: c2, merged: m1, ..old(self)@ }),
                    None => r is Err && final(self)@ == (Stores { cache: c1, merged: m1, ..old(self)@ }),
                }
            },
    {
        if path_in_abyss(&filepath.dir) {
            self.path_in_cave_of_dice(&filepath.dir);
            self.overlay.sync_write_file(filepath, content)
        } else {
            self.eager.write_file(filepath, content);
            Ok(())
        }
    }

    /// The retry of a write in the overlay, with the fetched listing of its directory.
    pub fn write_file_fetched(&mut self, filepath: &FilePath, contents: Contents, content: String)
        requires
            old(self).wf(),
            contents.wf(),
        ensures
            final(self).wf(),
            final(self)@ == (Stores { cache: write_with(old(self)@.cache, filepath.dir@, filepath.file@, content@, contents@), ..old(self)@ }),
    {
        self.overlay.sync_write_file_with_data(filepath, contents, content);
    }

    /// Deletes a file, saying whether it was there: from the eager store, or from the
    /// overlay's cached listing. `Err` asks for the listing, not cached yet, to be fetched and
    /// handed to `remove_file_fetched`.
    pub fn remove_file(&mut self, filepath: &FilePath) -> (r: Result<bool, NeedsFetch>)
        requires
            old(self).wf(),
        ensures
            final(self).wf(),
            !in_abyss_spec(filepath.dir@) ==> r == Ok::<bool, NeedsFetch>(files_in(old(self)@.eager, filepath.dir@).contains_key(filepath.file@))
                && final(self)@ == (Stores {
                    eager: if old(self)@.eager.contains_key(filepath.dir@) {
                        old(self)@.eager.insert(filepath.dir@, old(self)@.eager[filepath.dir@].remove(filepath.file@))
                    } else {
                        old(self)@.eager
                    },
                    ..old(self)@
                }),
            in_abyss_spec(filepath.dir@) ==> {
                let (c1, m1) = lookup(old(self)@.cache, old(self)@.merged, filepath.dir@, old(self)@.maze);
                match remove_file_cached(c1, filepath.dir@, filepath.file@) {
                    Some((c2, existed)) => r == Ok::<bool, NeedsFetch>(existed) && final(self)@ == (Stores { cache: c2, merged: m1, ..old(self)@ }),
                    None => r is Err && final(self)@ == (Stores { cache: c1, merged: m1, ..old(self)@ }),
                }
            },
    {
        if path_in_abyss(&filepath.dir) {
            self.path_in_cave_of_dice(&filepath.dir);
            self.overlay.sync_remove_file(filepath)
        } else {
            Ok(self.eager.remove_file(filepath))
        }
    }

    /// The retry of a deletion in the overlay, with the fetched listing; says whether the
    /// file was there.
    pub fn remove_file_fetched(&mut self, filepath: &FilePath, contents: Contents) -> (r: bool)
        requires
            old(self).wf(),
            contents.wf(),
        ensures
            final(self).wf(),
            r == contents@.contains_key(filepath.file@),
            final(self)@ == (Stores { cache: remove_file_with(old(self)@.cache, filepath.dir@, filepath.file@, contents@), ..old(self)@ }),
    {
        self.overlay.sync_remove_file_with_data(filepath, contents).is_ok()
    }

    /// Creates a directory: in the eager store (nothing changes if it is there), or in the
    /// overlay with its parent's subdirectories cached. `Err` asks for them to be fetched and
    /// handed to `create_dir_fetched`.
    pub fn create_dir(&mut self, dirpath: &DirPath) -> (r: Result<(), NeedsFetch>)
        requires
            old(self).wf(),
        ensures
            final(self).wf(),
            !in_abyss_spec(dirpath@) ==> r is Ok && final(self)@ == (Stores { eager: ensure_dir(old(self)@.eager, dirpath@), ..old(self)@ }),
            in_abyss_spec(dirpath@) ==> {
                let (c1, m1) = lookup(old(self)@.cache, old(self)@.merged, dirpath@, old(self)@.maze);
                match create_dir_cached(c1, dirpath@) {
                    Some(c2) => r is Ok && final(self)@ == (Stores { cache: c2, merged: m1, ..old(self)@ }),
                    None => r is Err && final(self)@ == (Stores { cache: c1, merged: m1, ..old(self)@ }),
                }
            },
    {
        if path_in_abyss(dirpath) {
            self.path_in_cave_of_dice(dirpath);
            self.overlay.sync_create_dir(dirpath)
        } else {
            self.eager.create_dir(dirpath.clone());
            Ok(())
        }
    }

    /// The retry of a directory creation in the overlay, with the parent's fetched
    /// subdirectories.
    pub fn create_dir_fetched(&mut self, dirpath: &DirPath, parent_dirs: Directories) -> (r: Result<(), String>)
        requires
            old(self).wf(),
            parent_dirs.wf(),
        ensures
            final(self).wf(),
            parent_spec(dirpath@) is Some ==> r is Ok
                && final(self)@ == (Stores { cache: create_dir_with(old(self)@.cache, dirpath@, parent_dirs@), ..old(self)@ }),
            parent_spec(dirpath@) is None ==> (r matches Err(e) && e@ == "Invalid path"@) && final(self)@ == old(self)@,
    {
        self.overlay.sync_create_dir_with_data(dirpath, parent_dirs)
    }

    /// Removes a directory, with its outcome: from the eager store, or from the overlay when
    /// the directory's listings and its parent's subdirectories are cached. `Err` asks for
    /// them to be fetched and handed to `remove_dir_fetched`.
    pub fn remove_dir(&mut self, dirpath: &DirPath) -> (r: Result<Result<(), String>, NeedsFetch>)
        requires
            old(self).wf(),
        ensures
            final(self).wf(),
            !in_abyss_spec(dirpath@) ==> (r matches Ok(res) && {
                &&& (res is Ok <==> eager_can_remove(old(self)@.eager, dirpath@))
                &&& res is Ok ==> final(self)@ == (Stores { eager: old(self)@.eager.remove(dirpath@), ..old(self)@ })
                &&& res is Err ==> final(self)@ == old(self)@
                &&& (res matches Err(e) ==> (e@ == "Directory not empty"@ || e@ == "Directory does not exist"@))
                &&& (!old(self)@.eager.contains_key(dirpath@) ==> (res matches Err(e) && e@ == "Directory does not exist"@))
            }),
            in_abyss_spec(dirpath@) ==> {
                let (c1, m1) = lookup(old(self)@.cache, old(self)@.merged, dirpath@, old(self)@.maze);
                match remove_dir_cached(c1, dirpath@) {
                    Some((c2, None)) => r == Ok::<Result<(), String>, NeedsFetch>(Ok(())) && final(self)@ == (Stores { cache: c2, merged: m1, ..old(self)@ }),
                    Some((c2, Some(m))) => (r matches Ok(Err(e)) && e@ == m) && final(self)@ == (Stores { cache: c2, merged: m1, ..old(self)@ }),
                    None => r is Err && final(self)@ == (Stores { cache: c1, merged: m1, ..old(self)@ }),
                }
            },
    {
        if path_in_abyss(dirpath) {
            self.path_in_cave_of_dice(dirpath);
            self.overlay.sync_remove_dir(dirpath)
        } else {
            Ok(self.eager.remove_dir(dirpath))
        }
    }

    /// The retry of a directory removal in the overlay, with the fetched listings.
    pub fn remove_dir_fetched(
        &mut self,
        dirpath: &DirPath,
        contents: Contents,
        directories: Directories,
        parent_dirs: Directories,
    ) -> (r: Result<(), String>)
        requires
            old(self).wf(),
            contents.wf(),
            directories.wf(),
            parent_dirs.wf(),
        ensures
            final(self).wf(),
            parent_spec(dirpath@) is None ==> (r matches Err(e) && e@ == "Invalid path"@) && final(self)@ == old(self)@,
            parent_spec(dirpath@) is Some ==> final(self)@ == (Stores {
                cache: remove_dir_with(old(self)@.cache, dirpath@, contents@, directories@, parent_dirs@),
                ..old(self)@
            }),
            parent_spec(dirpath@) is Some ==> (r is Ok <==> contents@.dom() == Set::<Seq<char>>::empty() && directories@ == Set::<Seq<char>>::empty()),
            parent_spec(dirpath@) is Some && r is Err ==> (r matches Err(e) && e@ == "Directory not empty"@),
    {
        self.overlay.sync_remove_dir_with_data(dirpath, contents, directories, parent_dirs)
    }
}

} // verus!
