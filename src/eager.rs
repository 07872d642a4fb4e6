use vstd::prelude::*;

use crate::path::{file_text, plain_dir, DirPath, FilePath, NextDir, Step};
use crate::store::{pair_views, resident_pairs, Content, ContentView, Contents};
use crate::table::{lemma_map_of_at, map_of, Table};
use crate::text::{insert_sorted, sorted_texts, texts_of};

verus! {

/// A file listed by the manifest: its name and the text of its directory.
#[derive(Debug)]
pub struct FileEntry {
    pub name: String,
    pub path: String,
}

/// The bootstrap manifest: the statically known files and directories.
#[derive(Debug)]
pub struct Manifest {
    pub files: Vec<FileEntry>,
    pub directories: Vec<String>,
}

/// The eager store as a map from directory to its files.
pub type Tree = Map<Seq<Step>, Map<Seq<char>, ContentView>>;

/// The files of `d`, none when it has no entry.
pub open spec fn files_in(m: Tree, d: Seq<Step>) -> Map<Seq<char>, ContentView> {
    if m.contains_key(d) {
        m[d]
    } else {
        Map::empty()
    }
}

pub open spec fn ensure_dir(m: Tree, d: Seq<Step>) -> Tree {
    if m.contains_key(d) {
        m
    } else {
        m.insert(d, Map::empty())
    }
}

/// `m` with an entry for `d` and for each of its ancestors.
pub open spec fn ensure_ancestors(m: Tree, d: Seq<Step>) -> Tree
    decreases d.len(),
{
    if d.len() == 0 {
        ensure_dir(m, d)
    } else {
        ensure_dir(ensure_ancestors(m, d.drop_last()), d)
    }
}

pub open spec fn add_dirs(m: Tree, dirs: Seq<Seq<char>>) -> Tree
    decreases dirs.len(),
{
    if dirs.len() == 0 {
        m
    } else {
        ensure_ancestors(add_dirs(m, dirs.drop_last()), plain_dir(dirs.last()))
    }
}

/// `m` with each listed file pending in its directory, directories created as needed.
pub open spec fn add_files(m: Tree, files: Seq<(Seq<char>, Seq<char>)>) -> Tree
    decreases files.len(),
{
    if files.len() == 0 {
        m
    } else {
        let before = add_files(m, files.drop_last());
        let d = plain_dir(files.last().1);
        let with_dir = ensure_ancestors(before, d);
        with_dir.insert(d, with_dir[d].insert(files.last().0, ContentView::Pending))
    }
}

pub open spec fn manifest_files(man: &Manifest) -> Seq<(Seq<char>, Seq<char>)> {
    man.files@.map_values(|e: FileEntry| (e.name@, e.path@))
}

pub open spec fn manifest_dirs(man: &Manifest) -> Seq<Seq<char>> {
    man.directories@.map_values(|d: String| d@)
}

/// The store after bootstrapping from `man`.
pub open spec fn after_manifest(m: Tree, man: &Manifest) -> Tree {
    add_files(add_dirs(ensure_dir(m, Seq::empty()), manifest_dirs(man)), manifest_files(man))
}

proof fn lemma_ensure_ancestors(m: Tree, d: Seq<Step>)
    ensures
        forall|k: int| 0 <= k <= d.len() ==> #[trigger] ensure_ancestors(m, d).contains_key(d.subrange(0, k)),
        forall|q: Seq<Step>| #[trigger] m.contains_key(q) ==> ensure_ancestors(m, d).contains_key(q) && ensure_ancestors(m, d)[q] == m[q],
    decreases d.len(),
{
    if d.len() > 0 {
        lemma_ensure_ancestors(m, d.drop_last());
        assert forall|k: int| 0 <= k <= d.len() implies #[trigger] ensure_ancestors(m, d).contains_key(d.subrange(0, k)) by {
            if k < d.len() {
                assert(d.drop_last().subrange(0, k) =~= d.subrange(0, k));
                assert(ensure_ancestors(m, d.drop_last()).contains_key(d.drop_last().subrange(0, k)));
            } else {
                assert(d.subrange(0, k) =~= d);
            }
        }
    } else {
        assert forall|k: int| 0 <= k <= d.len() implies #[trigger] ensure_ancestors(m, d).contains_key(d.subrange(0, k)) by {
            assert(d.subrange(0, k) =~= d);
        }
    }
}

proof fn lemma_add_dirs(m: Tree, dirs: Seq<Seq<char>>)
    ensures
        forall|i: int, k: int| 0 <= i < dirs.len() && 0 <= k <= plain_dir(dirs[i]).len()
            ==> #[trigger] add_dirs(m, dirs).contains_key(#[trigger] plain_dir(dirs[i]).subrange(0, k)),
        forall|q: Seq<Step>| #[trigger] m.contains_key(q) ==> add_dirs(m, dirs).contains_key(q) && add_dirs(m, dirs)[q] == m[q],
    decreases dirs.len(),
{
    if dirs.len() > 0 {
        let before = add_dirs(m, dirs.drop_last());
        lemma_add_dirs(m, dirs.drop_last());
        lemma_ensure_ancestors(before, plain_dir(dirs.last()));
        assert forall|i: int, k: int| 0 <= i < dirs.len() && 0 <= k <= plain_dir(dirs[i]).len()
            implies #[trigger] add_dirs(m, dirs).contains_key(#[trigger] plain_dir(dirs[i]).subrange(0, k)) by {
            if i < dirs.len() - 1 {
                assert(dirs.drop_last()[i] == dirs[i]);
                assert(before.contains_key(plain_dir(dirs.drop_last()[i]).subrange(0, k)));
            }
        }
    }
}

proof fn lemma_add_files(m: Tree, files: Seq<(Seq<char>, Seq<char>)>)
    ensures
        forall|j: int| 0 <= j < files.len() ==> {
            let d = #[trigger] plain_dir(files[j].1);
            &&& add_files(m, files).contains_key(d)
            &&& add_files(m, files)[d].contains_key(files[j].0)
            &&& add_files(m, files)[d][files[j].0] == ContentView::Pending
        },
        forall|q: Seq<Step>| #[trigger] m.contains_key(q) ==> add_files(m, files).contains_key(q),
        forall|j: int, k: int| 0 <= j < files.len() && 0 <= k <= plain_dir(files[j].1).len()
            ==> #[trigger] add_files(m, files).contains_key(#[trigger] plain_dir(files[j].1).subrange(0, k)),
    decreases files.len(),
{
    if files.len() > 0 {
        let before = add_files(m, files.drop_last());
        let d = plain_dir(files.last().1);
        lemma_add_files(m, files.drop_last());
        lemma_ensure_ancestors(before, d);
        let with_dir = ensure_ancestors(before, d);
        assert(d.subrange(0, d.len() as int) =~= d);
        assert forall|j: int| 0 <= j < files.len() implies {
            let dj = #[trigger] plain_dir(files[j].1);
            &&& add_files(m, files).contains_key(dj)
            &&& add_files(m, files)[dj].contains_key(files[j].0)
            &&& add_files(m, files)[dj][files[j].0] == ContentView::Pending
        } by {
            if j < files.len() - 1 {
                assert(files.drop_last()[j] == files[j]);
                let dj = plain_dir(files[j].1);
                assert(before.contains_key(dj));
            }
        }
        assert forall|j: int, k: int| 0 <= j < files.len() && 0 <= k <= plain_dir(files[j].1).len()
            implies #[trigger] add_files(m, files).contains_key(#[trigger] plain_dir(files[j].1).subrange(0, k)) by {
            if j < files.len() - 1 {
                assert(files.drop_last()[j] == files[j]);
                assert(before.contains_key(plain_dir(files.drop_last()[j].1).subrange(0, k)));
            }
        }
    }
}

/// Bootstrapping keeps every entry there was, and gives an entry to the root, to each
/// listed directory and each of its ancestors, and to each listed file's directory and its
/// ancestors; each listed file is then pending in its directory.
pub proof fn lemma_manifest_entries(m: Tree, man: &Manifest)
    ensures
        after_manifest(m, man).contains_key(Seq::empty()),
        forall|q: Seq<Step>| #[trigger] m.contains_key(q) ==> after_manifest(m, man).contains_key(q),
        forall|i: int, k: int| 0 <= i < manifest_dirs(man).len() && 0 <= k <= plain_dir(manifest_dirs(man)[i]).len()
            ==> #[trigger] after_manifest(m, man).contains_key(#[trigger] plain_dir(manifest_dirs(man)[i]).subrange(0, k)),
        forall|j: int, k: int| 0 <= j < manifest_files(man).len() && 0 <= k <= plain_dir(manifest_files(man)[j].1).len()
            ==> #[trigger] after_manifest(m, man).contains_key(#[trigger] plain_dir(manifest_files(man)[j].1).subrange(0, k)),
        forall|j: int| 0 <= j < manifest_files(man).len() ==> {
            let d = #[trigger] plain_dir(manifest_files(man)[j].1);
            let a = after_manifest(m, man);
            a.contains_key(d) && a[d].contains_key(manifest_files(man)[j].0) && a[d][manifest_files(man)[j].0] == ContentView::Pending
        },
{
    let rooted = ensure_dir(m, Seq::empty());
    let dirs_done = add_dirs(rooted, manifest_dirs(man));
    lemma_add_dirs(rooted, manifest_dirs(man));
    lemma_add_files(dirs_done, manifest_files(man));
    assert(rooted.contains_key(Seq::empty()));
    assert(dirs_done.contains_key(Seq::empty()));
    assert forall|q: Seq<Step>| #[trigger] m.contains_key(q) implies after_manifest(m, man).contains_key(q) by {
        assert(rooted.contains_key(q));
        assert(dirs_done.contains_key(q));
    }
    assert forall|i: int, k: int| 0 <= i < manifest_dirs(man).len() && 0 <= k <= plain_dir(manifest_dirs(man)[i]).len()
        implies #[trigger] after_manifest(m, man).contains_key(#[trigger] plain_dir(manifest_dirs(man)[i]).subrange(0, k)) by {
        assert(dirs_done.contains_key(plain_dir(manifest_dirs(man)[i]).subrange(0, k)));
    }
}

/// A strict descendant of `d` has an entry.
pub open spec fn has_descendant(m: Tree, d: Seq<Step>) -> bool {
    exists|k: Seq<Step>| #[trigger] m.contains_key(k) && k.len() > d.len() && k.subrange(0, d.len() as int) == d
}

/// The names `n` for which `d/n` has an entry.
pub open spec fn child_names(m: Tree, d: Seq<Step>) -> Set<Seq<char>> {
    Set::new(|n: Seq<char>| m.contains_key(d.push(Step::In(n))))
}

/// The store whose every directory and file is known: directory to its files.
pub struct VirtualFilesystem {
    content: Table<DirPath, Contents>,
}

impl View for VirtualFilesystem {
    type V = Tree;

    closed spec fn view(&self) -> Tree {
        self.content@
    }
}

impl VirtualFilesystem {
    pub closed spec fn wf(&self) -> bool {
        self.content.wf()
    }

    pub fn new() -> (r: VirtualFilesystem)
        ensures
            r.wf(),
            r@ == Map::<Seq<Step>, Map<Seq<char>, ContentView>>::empty(),
    {
        VirtualFilesystem { content: Table::new() }
    }

    fn ensure_dir(&mut self, d: DirPath)
        requires
            old(self).wf(),
        ensures
            final(self).wf(),
            final(self)@ == ensure_dir(old(self)@, d@),
    {
        if !self.content.contains_key(&d) {
            self.content.insert(d, Contents::new());
        }
    }

    fn ensure_ancestors(&mut self, d: &DirPath)
        requires
            old(self).wf(),
        ensures
            final(self).wf(),
            final(self)@ == ensure_ancestors(old(self)@, d@),
    {
        let ghost start = self@;
        let mut cur = DirPath::root();
        self.ensure_dir(cur.clone());
        assert(d@.subrange(0, 0) =~= Seq::<Step>::empty());
        let mut i: usize = 0;
        while i < d.0.len()
            invariant
                i <= d.0.len(),
                self.wf(),
                cur@ == d@.subrange(0, i as int),
                self@ == ensure_ancestors(start, d@.subrange(0, i as int)),
            decreases d.0.len() - i,
        {
            cur.0.push(d.0[i].clone());
            assert(cur@ =~= d@.subrange(0, i + 1));
            assert(d@.subrange(0, i + 1).drop_last() =~= d@.subrange(0, i as int));
            self.ensure_dir(cur.clone());
            i += 1;
        }
        assert(d@.subrange(0, d@.len() as int) =~= d@);
    }

    /// Loads the manifest: the root, each listed directory and each file's directory get an
    /// entry (ancestors included), and each listed file is pending.
    pub fn initialize_from_manifest(&mut self, manifest: &Manifest)
        requires
            old(self).wf(),
        ensures
            final(self).wf(),
            final(self)@ == after_manifest(old(self)@, manifest),
    {
        self.ensure_dir(DirPath::root());
        let ghost after_root = self@;
        let ghost dirs = manifest_dirs(manifest);
        let mut i: usize = 0;
        assert(dirs.subrange(0, 0) =~= Seq::<Seq<char>>::empty());
        while i < manifest.directories.len()
            invariant
                i <= manifest.directories.len(),
                dirs == manifest_dirs(manifest),
                self.wf(),
                self@ == add_dirs(after_root, dirs.subrange(0, i as int)),
            decreases manifest.directories.len() - i,
        {
            let d = DirPath::from_plain(manifest.directories[i].as_str());
            self.ensure_ancestors(&d);
            assert(dirs.subrange(0, i + 1).drop_last() =~= dirs.subrange(0, i as int));
            i += 1;
        }
        assert(dirs.subrange(0, dirs.len() as int) =~= dirs);
        let ghost after_dirs = self@;
        let ghost files = manifest_files(manifest);
        let mut j: usize = 0;
        assert(files.subrange(0, 0) =~= Seq::<(Seq<char>, Seq<char>)>::empty());
        while j < manifest.files.len()
            invariant
                j <= manifest.files.len(),
                files == manifest_files(manifest),
                self.wf(),
                self@ == add_files(after_dirs, files.subrange(0, j as int)),
            decreases manifest.files.len() - j,
        {
            let entry = &manifest.files[j];
            let d = DirPath::from_plain(entry.path.as_str());
            self.ensure_ancestors(&d);
            let mut listing = match self.content.remove(&d) {
                Some(c) => c,
                None => Contents::new(),
            };
            listing.insert(entry.name.clone(), Content::ToFetch);
            self.content.insert(d, listing);
            assert(files.subrange(0, j + 1).drop_last() =~= files.subrange(0, j as int));
            j += 1;
        }
        assert(files.subrange(0, files.len() as int) =~= files);
    }

    /// Writes a file in memory, creating its directory's entry if absent.
    pub fn write_file(&mut self, filepath: &FilePath, content: String)
        requires
            old(self).wf(),
        ensures
            final(self).wf(),
            final(self)@ == old(self)@.insert(
                filepath.dir@,
                files_in(old(self)@, filepath.dir@).insert(filepath.file@, ContentView::Resident(content@)),
            ),
    {
        let d = filepath.dir.clone();
        let mut listing = match self.content.remove(&d) {
            Some(c) => c,
            None => Contents::new(),
        };
        listing.insert(filepath.file.clone(), Content::InMemory(content));
        self.content.insert(d, listing);
        assert(self@ =~= old(self)@.insert(
            filepath.dir@,
            files_in(old(self)@, filepath.dir@).insert(filepath.file@, ContentView::Resident(content@)),
        ));
    }

    /// The file's content: resident, pending, or none when the file is not there.
    pub fn get_content(&self, filepath: &FilePath) -> (r: Option<&Content>)
        requires
            self.wf(),
        ensures
            r matches Some(c) ==> files_in(self@, filepath.dir@).contains_key(filepath.file@)
                && files_in(self@, filepath.dir@)[filepath.file@] == c@,
            r is None ==> !files_in(self@, filepath.dir@).contains_key(filepath.file@),
    {
        match self.content.get(&filepath.dir) {
            Some(listing) => listing.get(filepath.file.as_str()),
            None => None,
        }
    }

    /// A copy of the files of `d`, none when it has no entry.
    pub fn listing(&self, d: &DirPath) -> (r: Contents)
        requires
            self.wf(),
        ensures
            r.wf(),
            r@ == files_in(self@, d@),
    {
        match self.content.get(d) {
            Some(l) => l.copy(),
            None => Contents::new(),
        }
    }

    /// Sets the files of `d`, creating its entry if absent.
    pub fn insert_listing(&mut self, d: DirPath, listing: Contents)
        requires
            old(self).wf(),
            listing.wf(),
        ensures
            final(self).wf(),
            final(self)@ == old(self)@.insert(d@, listing@),
    {
        self.content.insert(d, listing);
    }

    pub fn file_exists(&self, filepath: &FilePath) -> (r: bool)
        requires
            self.wf(),
        ensures
            r == files_in(self@, filepath.dir@).contains_key(filepath.file@),
    {
        self.get_content(filepath).is_some()
    }

    /// Deletes a file; says whether it was there.
    pub fn remove_file(&mut self, filepath: &FilePath) -> (r: bool)
        requires
            old(self).wf(),
        ensures
            final(self).wf(),
            r == files_in(old(self)@, filepath.dir@).contains_key(filepath.file@),
            final(self)@ == if old(self)@.contains_key(filepath.dir@) {
                old(self)@.insert(filepath.dir@, old(self)@[filepath.dir@].remove(filepath.file@))
            } else {
                old(self)@
            },
    {
        match self.content.remove(&filepath.dir) {
            Some(mut listing) => {
                let r = listing.remove(filepath.file.as_str()).is_some();
                self.content.insert(filepath.dir.clone(), listing);
                assert(self@ =~= old(self)@.insert(filepath.dir@, old(self)@[filepath.dir@].remove(filepath.file@)));
                r
            },
            None => false,
        }
    }

    /// Creates a directory's entry; nothing changes if it has one.
    pub fn create_dir(&mut self, dirpath: DirPath)
        requires
            old(self).wf(),
        ensures
            final(self).wf(),
            final(self)@ == ensure_dir(old(self)@, dirpath@),
    {
        self.ensure_dir(dirpath);
    }

    pub fn dir_exists(&self, dirpath: &DirPath) -> (r: bool)
        requires
            self.wf(),
        ensures
            r == self@.contains_key(dirpath@),
    {
        self.content.contains_key(dirpath)
    }

    /// Removes a directory that has no files and no stored directory below it.
    pub fn remove_dir(&mut self, dirpath: &DirPath) -> (r: Result<(), String>)
        requires
            old(self).wf(),
        ensures
            final(self).wf(),
            !old(self)@.contains_key(dirpath@) ==> (r matches Err(e) && e@ == "Directory does not exist"@),
            old(self)@.contains_key(dirpath@) && (old(self)@[dirpath@].dom() != Set::<Seq<char>>::empty()
                || has_descendant(old(self)@, dirpath@)) ==> (r matches Err(e) && e@ == "Directory not empty"@),
            r is Ok <==> old(self)@.contains_key(dirpath@) && old(self)@[dirpath@].dom() == Set::<Seq<char>>::empty()
                && !has_descendant(old(self)@, dirpath@),
            r is Ok ==> final(self)@ == old(self)@.remove(dirpath@),
            r is Err ==> final(self)@ == old(self)@,
    {
        match self.content.get(dirpath) {
            None => {
                return Err(String::from_str("Directory does not exist"));
            },
            Some(listing) => {
                if !listing.is_empty() {
                    return Err(String::from_str("Directory not empty"));
                }
            },
        }
        let n = self.content.len();
        let ghost s = self.content.pairs();
        let mut i: usize = 0;
        while i < n
            invariant
                n == s.len(),
                s == self.content.pairs(),
                self@ == map_of(s),
                self.wf(),
                self@ == old(self)@,
                old(self)@.contains_key(dirpath@),
                old(self)@[dirpath@].dom() == Set::<Seq<char>>::empty(),
                i <= n,
                forall|j: int| 0 <= j < i ==> !(#[trigger] s[j].0.len() > dirpath@.len()
                    && s[j].0.subrange(0, dirpath@.len() as int) == dirpath@),
            decreases n - i,
        {
            if dirpath.is_strict_prefix_of(self.content.key_at(i)) {
                assert(self@.contains_key(s[i as int].0)) by {
                    assert(0 <= i < s.len() && s[i as int].0 == s[i as int].0);
                }
                return Err(String::from_str("Directory not empty"));
            }
            i += 1;
        }
        assert(!has_descendant(self@, dirpath@)) by {
            if has_descendant(self@, dirpath@) {
                let k = choose|k: Seq<Step>| #[trigger] self@.contains_key(k) && k.len() > dirpath@.len()
                    && k.subrange(0, dirpath@.len() as int) == dirpath@;
                let j = choose|j: int| 0 <= j < s.len() && #[trigger] s[j].0 == k;
                assert(s[j].0.len() > dirpath@.len());
            }
        }
        self.content.remove(dirpath);
        Ok(())
    }

    /// The names of the directory's files, in code point order; none when it has no entry.
    pub fn list_files_in_dir(&self, dirpath: &DirPath) -> (r: Vec<String>)
        requires
            self.wf(),
        ensures
            sorted_texts(texts_of(r@)),
            texts_of(r@).to_set() == files_in(self@, dirpath@).dom(),
    {
        match self.content.get(dirpath) {
            Some(listing) => listing.sorted_names(),
            None => {
                let r: Vec<String> = Vec::new();
                assert(texts_of(r@).to_set() =~= Set::<Seq<char>>::empty());
                r
            },
        }
    }

    /// The names of the immediate subdirectories that have entries, in code point order.
    pub fn list_subdirs_in_dir(&self, dirpath: &DirPath) -> (r: Vec<String>)
        requires
            self.wf(),
        ensures
            sorted_texts(texts_of(r@)),
            texts_of(r@).to_set() == child_names(self@, dirpath@),
    {
        let n = self.content.len();
        let ghost s = self.content.pairs();
        let ghost d = dirpath@;
        let mut out: Vec<String> = Vec::new();
        assert(texts_of(out@).to_set() =~= Set::<Seq<char>>::empty());
        let mut i: usize = 0;
        while i < n
            invariant
                n == s.len(),
                s == self.content.pairs(),
                self@ == map_of(s),
                d == dirpath@,
                i <= n,
                sorted_texts(texts_of(out@)),
                texts_of(out@).to_set() == Set::new(
                    |x: Seq<char>| exists|j: int| 0 <= j < i && #[trigger] s[j].0 == d.push(Step::In(x)),
                ),
            decreases n - i,
        {
            let k = self.content.key_at(i);
            let ghost before = texts_of(out@).to_set();
            let ghost ki = s[i as int].0;
            if k.0.len() > dirpath.0.len() && k.0.len() - dirpath.0.len() == 1 && dirpath.is_strict_prefix_of(k) {
                match &k.0[dirpath.0.len()] {
                    NextDir::In(name) => {
                        insert_sorted(&mut out, name.clone());
                        proof {
                            assert(ki =~= d.push(Step::In(name@)));
                            assert forall|x: Seq<char>| #[trigger] d.push(Step::In(x)) == ki implies x == name@ by {
                                assert(d.push(Step::In(x))[d.len() as int] == ki[d.len() as int]);
                            }
                        }
                    },
                    NextDir::Out => {
                        proof {
                            assert forall|x: Seq<char>| #[trigger] d.push(Step::In(x)) != ki by {
                                assert(d.push(Step::In(x))[d.len() as int] != ki[d.len() as int]);
                            }
                        }
                    },
                }
            } else {
                proof {
                    assert forall|x: Seq<char>| #[trigger] d.push(Step::In(x)) != ki by {
                        if d.push(Step::In(x)) == ki {
                            assert(ki.subrange(0, d.len() as int) =~= d);
                        }
                    }
                }
            }
            proof {
                assert forall|x: Seq<char>| #[trigger] texts_of(out@).to_set().contains(x) <==> (exists|j: int|
                    0 <= j < i + 1 && #[trigger] s[j].0 == d.push(Step::In(x))) by {
                    if s[i as int].0 == d.push(Step::In(x)) {
                        assert(texts_of(out@).to_set().contains(x));
                    }
                    if texts_of(out@).to_set().contains(x) && !before.contains(x) {
                        assert(s[i as int].0 == d.push(Step::In(x)));
                    }
                }
                assert(texts_of(out@).to_set() =~= Set::new(
                    |x: Seq<char>| exists|j: int| 0 <= j < i + 1 && #[trigger] s[j].0 == d.push(Step::In(x)),
                ));
            }
            i += 1;
        }
        assert(texts_of(out@).to_set() =~= child_names(self@, d)) by {
            assert forall|x: Seq<char>| #[trigger] child_names(self@, d).contains(x) implies texts_of(out@).to_set().contains(x) by {
                let j = choose|j: int| 0 <= j < s.len() && #[trigger] s[j].0 == d.push(Step::In(x));
            }
        }
        out
    }
}

/// Each resident file of the store: its full path as text, and its text.
pub open spec fn resident_entries(m: Tree) -> Set<(Seq<char>, Seq<char>)> {
    Set::new(|e: (Seq<char>, Seq<char>)| exists|d: Seq<Step>, n: Seq<char>|
        #[trigger] m.contains_key(d) && resident_pairs(m[d]).contains((n, e.1)) && e.0 == #[trigger] file_text(d, n))
}

impl VirtualFilesystem {
    /// The full path and text of each resident file.
    pub fn resident_entries(&self) -> (r: Vec<(String, String)>)
        requires
            self.wf(),
        ensures
            pair_views(r@).to_set() == resident_entries(self@),
    {
        let n = self.content.len();
        let ghost s = self.content.pairs();
        let mut out: Vec<(String, String)> = Vec::new();
        assert(pair_views(out@).to_set() =~= Set::<(Seq<char>, Seq<char>)>::empty());
        let mut i: usize = 0;
        while i < n
            invariant
                i <= n,
                n == s.len(),
                s == self.content.pairs(),
                self.wf(),
                pair_views(out@).to_set() == Set::new(|e: (Seq<char>, Seq<char>)| exists|j: int, f: Seq<char>|
                    0 <= j < i && #[trigger] resident_pairs(s[j].1).contains((f, e.1)) && e.0 == file_text(s[j].0, f)),
            decreases n - i,
        {
            let d = self.content.key_at(i);
            let files = self.content.value_at(i).resident_files();
            let ghost fv = pair_views(files@);
            let ghost start = pair_views(out@).to_set();
            let mut k: usize = 0;
            while k < files.len()
                invariant
                    k <= files.len(),
                    fv == pair_views(files@),
                    d@ == s[i as int].0,
                    pair_views(out@).to_set() == start.union(Set::new(|e: (Seq<char>, Seq<char>)| exists|q: int|
                        0 <= q < k && e == (file_text(d@, #[trigger] fv[q].0), fv[q].1))),
                decreases files.len() - k,
            {
                let ghost before = pair_views(out@);
                let path = FilePath::new(d.clone(), files[k].0.clone()).to_string();
                out.push((path, files[k].1.clone()));
                proof {
                    assert(pair_views(out@) =~= before.push((file_text(d@, fv[k as int].0), fv[k as int].1)));
                    assert forall|e: (Seq<char>, Seq<char>)| #[trigger] pair_views(out@).to_set().contains(e) <==> before.to_set().contains(e)
                        || e == (file_text(d@, fv[k as int].0), fv[k as int].1) by {
                        if pair_views(out@).to_set().contains(e) {
                            let q = choose|q: int| 0 <= q < pair_views(out@).len() && pair_views(out@)[q] == e;
                            if q < before.len() {
                                assert(before[q] == e);
                            }
                        }
                        if before.to_set().contains(e) {
                            let q = choose|q: int| 0 <= q < before.len() && before[q] == e;
                            assert(pair_views(out@)[q] == e);
                        }
                        if e == (file_text(d@, fv[k as int].0), fv[k as int].1) {
                            assert(pair_views(out@)[before.len() as int] == e);
                        }
                    }
                    assert(pair_views(out@).to_set() =~= start.union(Set::new(|e: (Seq<char>, Seq<char>)| exists|q: int|
                        0 <= q < k + 1 && e == (file_text(d@, #[trigger] fv[q].0), fv[q].1))));
                }
                k += 1;
            }
            proof {
                assert forall|e: (Seq<char>, Seq<char>)| #[trigger] pair_views(out@).to_set().contains(e) <==> exists|j: int, f: Seq<char>|
                    0 <= j < i + 1 && #[trigger] resident_pairs(s[j].1).contains((f, e.1)) && e.0 == file_text(s[j].0, f) by {
                    if pair_views(out@).to_set().contains(e) && !start.contains(e) {
                        let q = choose|q: int| 0 <= q < fv.len() && e == (file_text(d@, #[trigger] fv[q].0), fv[q].1);
                        assert(fv.to_set().contains(fv[q]));
                        assert(resident_pairs(s[i as int].1).contains((fv[q].0, e.1)));
                    }
                    if exists|j: int, f: Seq<char>| 0 <= j < i + 1 && #[trigger] resident_pairs(s[j].1).contains((f, e.1)) && e.0 == file_text(s[j].0, f) {
                        let (j, f) = choose|j: int, f: Seq<char>| 0 <= j < i + 1 && #[trigger] resident_pairs(s[j].1).contains((f, e.1)) && e.0 == file_text(s[j].0, f);
                        if j == i {
                            assert(fv.to_set().contains((f, e.1)));
                            let q = choose|q: int| 0 <= q < fv.len() && fv[q] == (f, e.1);
                            assert(e == (file_text(d@, fv[q].0), fv[q].1));
                        }
                    }
                }
                assert(pair_views(out@).to_set() =~= Set::new(|e: (Seq<char>, Seq<char>)| exists|j: int, f: Seq<char>|
                    0 <= j < i + 1 && #[trigger] resident_pairs(s[j].1).contains((f, e.1)) && e.0 == file_text(s[j].0, f)));
            }
            i += 1;
        }
        proof {
            assert forall|e: (Seq<char>, Seq<char>)| #[trigger] pair_views(out@).to_set().contains(e) <==> resident_entries(self@).contains(e) by {
                if pair_views(out@).to_set().contains(e) {
                    let (j, f) = choose|j: int, f: Seq<char>| 0 <= j < n && #[trigger] resident_pairs(s[j].1).contains((f, e.1)) && e.0 == file_text(s[j].0, f);
                    lemma_map_of_at(s, j);
                    assert(self@.contains_key(s[j].0) && resident_pairs(self@[s[j].0]).contains((f, e.1)) && e.0 == file_text(s[j].0, f));
                }
                if resident_entries(self@).contains(e) {
                    let (d, f) = choose|d: Seq<Step>, f: Seq<char>| #[trigger] self@.contains_key(d) && resident_pairs(self@[d]).contains((f, e.1)) && e.0 == #[trigger] file_text(d, f);
                    let j = choose|j: int| 0 <= j < s.len() && #[trigger] s[j].0 == d;
                    lemma_map_of_at(s, j);
                    assert(resident_pairs(s[j].1).contains((f, e.1)));
                }
            }
            assert(pair_views(out@).to_set() =~= resident_entries(self@));
        }
        out
    }
}

impl FilePath {
    /// Whether the eager store holds this file.
    pub fn exists_in(&self, fs: &VirtualFilesystem) -> (r: bool)
        requires
            fs.wf(),
        ensures
            r == files_in(fs@, self.dir@).contains_key(self.file@),
    {
        fs.file_exists(self)
    }
}

} // verus!
