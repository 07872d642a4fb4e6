use std::io::Read;
use vstd::prelude::*;

use crate::eager::VirtualFilesystem;
use crate::overlay::{keys_all_in, lemma_mounted_insert, mounted, AbyssFileSystem};
use crate::path::{
    all_in, last_name, lemma_replay_descents, lemma_walk_keeps_all_in, parent_spec, parse_dir_spec, parse_file_spec, segments,
    DirPath, FilePath, NextDir, Step,
};
use crate::table::{lemma_map_of_at, lemma_map_of_prefix, map_of};
use crate::store::{Content, ContentView, Contents, Directories};

verus! {

/// The top directory that archive paths may start with; it stands for the root.
pub const LAIR_NAME: &'static str = "secret_lair";

/// The name of archive files that are never extracted.
pub const SKIPPED_NAME: &'static str = "REDACTED";

/// One entry of an archive, as read: its name, whether it is a directory, and its text when
/// it is a file that could be read as text.
pub struct ArchiveEntry {
    pub name: String,
    pub is_dir: bool,
    pub text: Option<String>,
}

/// An entry as plain values: name, whether it is a directory, text.
pub type EntryView = (Seq<char>, bool, Option<Seq<char>>);

impl View for ArchiveEntry {
    type V = EntryView;

    open spec fn view(&self) -> EntryView {
        (self.name@, self.is_dir, match self.text {
            Some(t) => Some(t@),
            None => None,
        })
    }
}

pub open spec fn entry_views(es: Seq<ArchiveEntry>) -> Seq<EntryView> {
    es.map_values(|e: ArchiveEntry| e@)
}

/// Why an archive was not extracted.
#[derive(Debug)]
pub enum ArchiveError {
    /// An entry could not be decrypted or read with the password.
    Password,
    /// The bytes are no archive, or an entry's directory has no entry of its own.
    Malformed,
}

pub open spec fn ends_with_separator(s: Seq<char>) -> bool {
    s.len() > 0 && (s.last() == '/' || s.last() == '\\')
}

/// The number of entries of the archive in `bytes`; `None` when they hold no archive.
pub uninterp spec fn archive_count(bytes: Seq<u8>) -> Option<nat>;

/// The `index`th entry of the archive in `bytes`, opened with `password`; `None` when it
/// cannot be opened with it.
pub uninterp spec fn archive_entry(bytes: Seq<u8>, password: Seq<u8>, index: nat) -> Option<EntryView>;

/// Relies on `zip::ZipArchive::new` over the bytes and `zip::ZipArchive::len`: the result
/// depends on the bytes alone.
#[verifier::external_body]
fn archive_len(bytes: &Vec<u8>) -> (r: Option<usize>)
    ensures
        r matches Some(n) ==> archive_count(bytes@) == Some(n as nat),
        r is None ==> archive_count(bytes@) is None,
{
    zip::ZipArchive::new(std::io::Cursor::new(bytes.clone())).ok().map(|a| a.len())
}

/// Relies on `zip::ZipArchive::new` over the bytes, `zip::ZipArchive::by_index_decrypt` for
/// the entry, then its `name`, its `is_dir` (the name ends with `/` or `\`) and
/// `Read::read_to_string`. The result depends on the arguments alone.
#[verifier::external_body]
fn read_entry(bytes: &Vec<u8>, index: usize, password: &[u8]) -> (r: Option<ArchiveEntry>)
    ensures
        r matches Some(e) ==> archive_entry(bytes@, password@, index as nat) == Some(e@) && e.is_dir == ends_with_separator(e.name@),
        r is None ==> archive_entry(bytes@, password@, index as nat) is None,
{
    let mut archive = zip::ZipArchive::new(std::io::Cursor::new(bytes.clone())).ok()?;
    let mut file = archive.by_index_decrypt(index, password).ok()?;
    let name = file.name().to_string();
    let is_dir = file.is_dir();
    let mut text = String::new();
    let read = file.read_to_string(&mut text).is_ok();
    Some(ArchiveEntry { name, is_dir, text: if read { Some(text) } else { None } })
}

/// The entries of the archive below `n`, each opened with the password; `None` when one
/// cannot be opened.
pub open spec fn archive_entries(bytes: Seq<u8>, password: Seq<u8>, n: nat) -> Option<Seq<EntryView>>
    decreases n,
{
    if n == 0 {
        Some(Seq::empty())
    } else {
        match (archive_entries(bytes, password, (n - 1) as nat), archive_entry(bytes, password, (n - 1) as nat)) {
            (Some(es), Some(e)) => Some(es.push(e)),
            _ => None,
        }
    }
}

/// An archive path without its leading lair directory.
pub open spec fn strip_lair(p: Seq<Step>) -> Seq<Step> {
    if p.len() > 0 && p[0] == Step::In(LAIR_NAME@) {
        p.drop_first()
    } else {
        p
    }
}

pub open spec fn entry_dir(e: EntryView) -> Seq<Step> {
    strip_lair(parse_dir_spec(e.0, Seq::empty()))
}

pub open spec fn entry_file(e: EntryView) -> (Seq<Step>, Seq<char>) {
    let f = parse_file_spec(e.0, Seq::empty());
    (strip_lair(f.0), f.1)
}

pub open spec fn skipped(e: EntryView) -> bool {
    !e.1 && entry_file(e).1 == SKIPPED_NAME@
}

pub open spec fn extracted(e: EntryView) -> bool {
    !e.1 && !skipped(e)
}

/// A file to extract whose text could not be read.
pub open spec fn unreadable(e: EntryView) -> bool {
    extracted(e) && e.2 is None
}

/// `d` is the root or the directory of a directory entry.
pub open spec fn known(es: Seq<EntryView>, d: Seq<Step>) -> bool {
    d.len() == 0 || exists|i: int| 0 <= i < es.len() && es[i].1 && #[trigger] entry_dir(es[i]) == d
}

/// The `i`th entry's parent (for a directory) or directory (for a file) has no entry.
pub open spec fn orphan(es: Seq<EntryView>, i: int) -> bool {
    ||| (es[i].1 && parent_spec(entry_dir(es[i])) is Some && !known(es, parent_spec(entry_dir(es[i]))->0))
    ||| (extracted(es[i]) && !known(es, entry_file(es[i]).0))
}

fn strip_lair_path(p: DirPath) -> (r: DirPath)
    ensures
        r@ == strip_lair(p@),
{
    let mut p = p;
    if p.0.len() > 0 {
        let lair = String::from_str(LAIR_NAME);
        let first = match &p.0[0] {
            NextDir::In(x) => *x == lair,
            NextDir::Out => false,
        };
        if first {
            let ghost before = p@;
            p.0.remove(0);
            assert(p@ =~= before.drop_first());
        }
    }
    p
}

fn entry_dir_path(e: &ArchiveEntry) -> (r: DirPath)
    ensures
        r@ == entry_dir(e@),
{
    strip_lair_path(DirPath::parse(e.name.as_str(), &DirPath::root()))
}

fn entry_file_path(e: &ArchiveEntry) -> (r: FilePath)
    ensures
        r@ == entry_file(e@),
{
    let fp = FilePath::parse(e.name.as_str(), &DirPath::root());
    FilePath::new(strip_lair_path(fp.dir), fp.file)
}

/// What extracting entries `es` gives: an unreadable file fails for the password; else an
/// entry whose directory or parent has no entry makes the archive malformed; else the tree
/// holds a listing pair for the root and each directory entry and nothing more, each
/// extracted file resident in its directory, and only descents in its paths.
pub open spec fn extraction(es: Seq<EntryView>, r: Result<AbyssFileSystem, ArchiveError>) -> bool {
    &&& (exists|i: int| 0 <= i < es.len() && unreadable(#[trigger] es[i])) ==> (r matches Err(ArchiveError::Password))
    &&& !(exists|i: int| 0 <= i < es.len() && unreadable(#[trigger] es[i]))
        && (exists|i: int| 0 <= i < es.len() && #[trigger] orphan(es, i)) ==> (r matches Err(ArchiveError::Malformed))
    &&& !(exists|i: int| 0 <= i < es.len() && unreadable(#[trigger] es[i]))
        && !(exists|i: int| 0 <= i < es.len() && #[trigger] orphan(es, i)) ==> (r matches Ok(fs) && {
            &&& fs.wf()
            &&& forall|d: Seq<Step>| #[trigger] fs@.dirs.contains_key(d) <==> known(es, d)
            &&& forall|d: Seq<Step>| #[trigger] fs@.files.contains_key(d) <==> known(es, d)
            &&& keys_all_in(fs@.files)
            &&& listings_match(es, fs@, es.len() as int)
            &&& forall|i: int| 0 <= i < es.len() && extracted(#[trigger] es[i]) ==> {
                let (d, n) = entry_file(es[i]);
                fs@.files[d].contains_key(n) && fs@.files[d][n] is Resident
            }
        })
}

/// The names of the directory entries among the first `j` whose parent is `d`.
pub open spec fn children_below(es: Seq<EntryView>, d: Seq<Step>, j: int) -> Set<Seq<char>> {
    Set::new(|x: Seq<char>| exists|q: int| 0 <= q < j && es[q].1 && parent_spec(#[trigger] entry_dir(es[q])) == Some(d)
        && last_name(entry_dir(es[q])) == Some(x))
}

/// The names of the extracted files among the first `k` entries whose directory is `d`.
pub open spec fn files_below(es: Seq<EntryView>, d: Seq<Step>, k: int) -> Set<Seq<char>> {
    Set::new(|x: Seq<char>| exists|q: int| 0 <= q < k && extracted(es[q]) && #[trigger] entry_file(es[q]) == (d, x))
}

/// The listings of `fs` hold exactly what the first `k` entries extract: each directory its
/// subdirectory entries, each file the text of an entry with its path.
pub open spec fn listings_match(es: Seq<EntryView>, c: crate::overlay::Cache, k: int) -> bool {
    &&& forall|d: Seq<Step>| #[trigger] c.dirs.contains_key(d) ==> c.dirs[d] == children_below(es, d, es.len() as int)
    &&& forall|d: Seq<Step>| #[trigger] c.files.contains_key(d) ==> c.files[d].dom() == files_below(es, d, k)
    &&& forall|d: Seq<Step>, n: Seq<char>| c.files.contains_key(d) && #[trigger] c.files[d].contains_key(n) ==> exists|q: int|
        0 <= q < k && extracted(es[q]) && #[trigger] entry_file(es[q]) == (d, n) && c.files[d][n] == ContentView::Resident(es[q].2->0)
}

proof fn lemma_entry_dir_all_in(e: EntryView)
    ensures
        all_in(entry_dir(e)),
{
    lemma_walk_keeps_all_in(Seq::empty(), segments(e.0));
    let p = parse_dir_spec(e.0, Seq::empty());
    if p.len() > 0 && p[0] == Step::In(LAIR_NAME@) {
        assert forall|i: int| 0 <= i < p.drop_first().len() implies #[trigger] p.drop_first()[i] is In by {
            assert(p.drop_first()[i] == p[i + 1]);
        }
    }
}

/// Builds the extracted tree, the archive's top treated as the root; see `extraction`.
pub fn build_tree(entries: &Vec<ArchiveEntry>) -> (r: Result<AbyssFileSystem, ArchiveError>)
    ensures
        extraction(entry_views(entries@), r),
{
    let ghost es = entry_views(entries@);
    let mut fs = AbyssFileSystem::new();
    fs.cache_directories(DirPath::root(), Directories::new());
    fs.cache_contents(DirPath::root(), Contents::new());
    let skip = String::from_str(SKIPPED_NAME);
    proof {
        assert forall|d: Seq<Step>| #[trigger] fs@.dirs.contains_key(d) <==> d.len() == 0 by {
            if d.len() == 0 {
                assert(d =~= Seq::<Step>::empty());
            }
        }
        assert forall|d: Seq<Step>| #[trigger] fs@.files.contains_key(d) <==> d.len() == 0 by {
            if d.len() == 0 {
                assert(d =~= Seq::<Step>::empty());
            }
        }
    }
    let mut i: usize = 0;
    while i < entries.len()
        invariant
            i <= entries.len(),
            es == entry_views(entries@),
            skip@ == SKIPPED_NAME@,
            fs.wf(),
            forall|k: int| 0 <= k < i ==> !unreadable(#[trigger] es[k]),
            forall|d: Seq<Step>| #[trigger] fs@.dirs.contains_key(d) <==> (d.len() == 0 || exists|k: int| 0 <= k < i && es[k].1 && #[trigger] entry_dir(es[k]) == d),
            forall|d: Seq<Step>| #[trigger] fs@.files.contains_key(d) <==> (d.len() == 0 || exists|k: int| 0 <= k < i && es[k].1 && #[trigger] entry_dir(es[k]) == d),
            forall|d: Seq<Step>| #[trigger] fs@.dirs.contains_key(d) ==> fs@.dirs[d] == Set::<Seq<char>>::empty() && fs@.files[d] == Map::<Seq<char>, ContentView>::empty(),
        decreases entries.len() - i,
    {
        let e = &entries[i];
        assert(es[i as int] == e@);
        if e.is_dir {
            let d = entry_dir_path(e);
            fs.cache_directories(d.clone(), Directories::new());
            fs.cache_contents(d, Contents::new());
        } else {
            let fp = entry_file_path(e);
            if fp.file != skip && e.text.is_none() {
                return Err(ArchiveError::Password);
            }
        }
        proof {
            assert forall|d: Seq<Step>| #[trigger] fs@.dirs.contains_key(d) <==> (d.len() == 0 || exists|k: int| 0 <= k < i + 1 && es[k].1 && #[trigger] entry_dir(es[k]) == d) by {
                if exists|k: int| 0 <= k < i + 1 && es[k].1 && #[trigger] entry_dir(es[k]) == d {
                    let k = choose|k: int| 0 <= k < i + 1 && es[k].1 && #[trigger] entry_dir(es[k]) == d;
                    if k < i {
                    }
                }
            }
            assert forall|d: Seq<Step>| #[trigger] fs@.files.contains_key(d) <==> (d.len() == 0 || exists|k: int| 0 <= k < i + 1 && es[k].1 && #[trigger] entry_dir(es[k]) == d) by {
                if exists|k: int| 0 <= k < i + 1 && es[k].1 && #[trigger] entry_dir(es[k]) == d {
                    let k = choose|k: int| 0 <= k < i + 1 && es[k].1 && #[trigger] entry_dir(es[k]) == d;
                    if k < i {
                    }
                }
            }
        }
        i += 1;
    }
    proof {
        assert forall|d: Seq<Step>| #[trigger] fs@.dirs.contains_key(d) <==> known(es, d) by {}
        assert forall|d: Seq<Step>| #[trigger] fs@.files.contains_key(d) <==> known(es, d) by {}
        assert forall|d: Seq<Step>| #[trigger] fs@.dirs.contains_key(d) implies fs@.dirs[d] == children_below(es, d, 0) by {
            assert(children_below(es, d, 0) =~= Set::<Seq<char>>::empty());
        }
    }
    let mut j: usize = 0;
    while j < entries.len()
        invariant
            j <= entries.len(),
            es == entry_views(entries@),
            fs.wf(),
            forall|k: int| 0 <= k < es.len() ==> !unreadable(#[trigger] es[k]),
            forall|d: Seq<Step>| #[trigger] fs@.dirs.contains_key(d) <==> known(es, d),
            forall|d: Seq<Step>| #[trigger] fs@.files.contains_key(d) <==> known(es, d),
            forall|k: int| 0 <= k < j ==> !(#[trigger] es[k].1 && parent_spec(entry_dir(es[k])) is Some
                && !known(es, parent_spec(entry_dir(es[k]))->0)),
            forall|d: Seq<Step>| #[trigger] fs@.dirs.contains_key(d) ==> fs@.dirs[d] == children_below(es, d, j as int) && fs@.files[d] == Map::<Seq<char>, ContentView>::empty(),
        decreases entries.len() - j,
    {
        let ghost before = fs@;
        let e = &entries[j];
        assert(es[j as int] == e@);
        if e.is_dir {
            let d = entry_dir_path(e);
            match (d.super_dir(), d.final_component()) {
                (Some(parent), Some(name)) => {
                    match fs.cached_directories(&parent) {
                        Some(mut pd) => {
                            let ghost pv = parent@;
                            let ghost nv = name@;
                            pd.insert(String::from_str(name));
                            fs.cache_directories(parent, pd);
                            proof {
                                assert forall|dd: Seq<Step>| #[trigger] fs@.dirs.contains_key(dd) implies fs@.dirs[dd]
                                    == children_below(es, dd, j + 1) && fs@.files[dd] == Map::<Seq<char>, ContentView>::empty() by {
                                    assert(before.dirs.contains_key(dd));
                                    assert forall|x: Seq<char>| #[trigger] children_below(es, dd, j + 1).contains(x) <==> (children_below(es, dd, j as int).contains(x)
                                        || (dd == pv && x == nv)) by {
                                        if children_below(es, dd, j + 1).contains(x) && !children_below(es, dd, j as int).contains(x) {
                                            let q = choose|q: int| 0 <= q < j + 1 && es[q].1 && parent_spec(#[trigger] entry_dir(es[q])) == Some(dd)
                                                && last_name(entry_dir(es[q])) == Some(x);
                                            assert(q == j);
                                        }
                                        if dd == pv && x == nv {
                                            assert(0 <= j < j + 1 && es[j as int].1 && parent_spec(entry_dir(es[j as int])) == Some(dd)
                                                && last_name(entry_dir(es[j as int])) == Some(x));
                                        }
                                    }
                                    if dd == pv {
                                        assert(fs@.dirs[dd] =~= children_below(es, dd, j + 1));
                                    } else {
                                        assert(fs@.dirs[dd] =~= children_below(es, dd, j + 1));
                                    }
                                }
                            }
                        },
                        None => {
                            assert(orphan(es, j as int));
                            return Err(ArchiveError::Malformed);
                        },
                    }
                },
                _ => {
                    proof {
                        assert forall|dd: Seq<Step>| #[trigger] fs@.dirs.contains_key(dd) implies fs@.dirs[dd] == children_below(es, dd, j + 1) by {
                            assert forall|x: Seq<char>| #[trigger] children_below(es, dd, j + 1).contains(x) <==> children_below(es, dd, j as int).contains(x) by {
                                if children_below(es, dd, j + 1).contains(x) {
                                    let q = choose|q: int| 0 <= q < j + 1 && es[q].1 && parent_spec(#[trigger] entry_dir(es[q])) == Some(dd)
                                        && last_name(entry_dir(es[q])) == Some(x);
                                    assert(q != j);
                                }
                            }
                            assert(children_below(es, dd, j + 1) =~= children_below(es, dd, j as int));
                        }
                    }
                },
            }
        } else {
            proof {
                assert forall|dd: Seq<Step>| #[trigger] fs@.dirs.contains_key(dd) implies fs@.dirs[dd] == children_below(es, dd, j + 1) by {
                    assert forall|x: Seq<char>| #[trigger] children_below(es, dd, j + 1).contains(x) <==> children_below(es, dd, j as int).contains(x) by {
                        if children_below(es, dd, j + 1).contains(x) {
                            let q = choose|q: int| 0 <= q < j + 1 && es[q].1 && parent_spec(#[trigger] entry_dir(es[q])) == Some(dd)
                                && last_name(entry_dir(es[q])) == Some(x);
                            assert(q != j);
                        }
                    }
                    assert(children_below(es, dd, j + 1) =~= children_below(es, dd, j as int));
                }
            }
        }
        j += 1;
    }
    let ghost dirs_done = fs@.dirs;
    proof {
        assert forall|d: Seq<Step>| #[trigger] fs@.files.contains_key(d) implies fs@.files[d].dom() == files_below(es, d, 0) by {
            assert(fs@.dirs.contains_key(d));
            assert(files_below(es, d, 0) =~= Set::<Seq<char>>::empty());
            assert(fs@.files[d].dom() =~= Set::<Seq<char>>::empty());
        }
    }
    let mut k: usize = 0;
    while k < entries.len()
        invariant
            k <= entries.len(),
            es == entry_views(entries@),
            fs.wf(),
            skip@ == SKIPPED_NAME@,
            forall|q: int| 0 <= q < es.len() ==> !unreadable(#[trigger] es[q]),
            forall|q: int| 0 <= q < es.len() ==> !(#[trigger] es[q].1 && parent_spec(entry_dir(es[q])) is Some
                && !known(es, parent_spec(entry_dir(es[q]))->0)),
            forall|d: Seq<Step>| #[trigger] fs@.dirs.contains_key(d) <==> known(es, d),
            forall|d: Seq<Step>| #[trigger] fs@.files.contains_key(d) <==> known(es, d),
            forall|q: int| 0 <= q < k && extracted(#[trigger] es[q]) ==> {
                let (d, n) = entry_file(es[q]);
                fs@.files.contains_key(d) && fs@.files[d].contains_key(n) && fs@.files[d][n] is Resident
            },
            fs@.dirs == dirs_done,
            forall|d: Seq<Step>| #[trigger] dirs_done.contains_key(d) ==> dirs_done[d] == children_below(es, d, es.len() as int),
            forall|d: Seq<Step>| #[trigger] fs@.files.contains_key(d) ==> fs@.files[d].dom() == files_below(es, d, k as int),
            forall|d: Seq<Step>, n: Seq<char>| fs@.files.contains_key(d) && #[trigger] fs@.files[d].contains_key(n) ==> exists|q: int|
                0 <= q < k && extracted(es[q]) && #[trigger] entry_file(es[q]) == (d, n) && fs@.files[d][n] == ContentView::Resident(es[q].2->0),
        decreases entries.len() - k,
    {
        let e = &entries[k];
        assert(es[k as int] == e@);
        if !e.is_dir {
            let fp = entry_file_path(e);
            if fp.file != skip {
                let text = match &e.text {
                    Some(t) => t.clone(),
                    None => {
                        assert(unreadable(es[k as int]));
                        return Err(ArchiveError::Password);
                    },
                };
                match fs.cached_contents(&fp.dir) {
                    Some(mut listing) => {
                        let ghost before = fs@;
                        listing.insert(fp.file.clone(), Content::InMemory(text));
                        fs.cache_contents(fp.dir.clone(), listing);
                        proof {
                            assert forall|q: int| 0 <= q < k + 1 && extracted(#[trigger] es[q]) implies {
                                let (d, n) = entry_file(es[q]);
                                fs@.files.contains_key(d) && fs@.files[d].contains_key(n) && fs@.files[d][n] is Resident
                            } by {
                                if q < k {
                                    let (d, n) = entry_file(es[q]);
                                    assert(before.files.contains_key(d));
                                }
                            }
                            let ghost fd = fp.dir@;
                            let ghost fnm = fp.file@;
                            assert(entry_file(es[k as int]) == (fd, fnm));
                            assert(extracted(es[k as int]));
                            assert forall|d: Seq<Step>| #[trigger] fs@.files.contains_key(d) implies fs@.files[d].dom() == files_below(es, d, k + 1) by {
                                assert(before.files.contains_key(d));
                                assert forall|x: Seq<char>| #[trigger] files_below(es, d, k + 1).contains(x) <==> (files_below(es, d, k as int).contains(x)
                                    || (d == fd && x == fnm)) by {
                                    if files_below(es, d, k + 1).contains(x) && !files_below(es, d, k as int).contains(x) {
                                        let q = choose|q: int| 0 <= q < k + 1 && extracted(es[q]) && #[trigger] entry_file(es[q]) == (d, x);
                                        assert(q == k);
                                    }
                                    if d == fd && x == fnm {
                                        assert(0 <= k < k + 1 && extracted(es[k as int]) && entry_file(es[k as int]) == (d, x));
                                    }
                                }
                                assert(fs@.files[d].dom() =~= files_below(es, d, k + 1));
                            }
                            assert forall|d: Seq<Step>, n: Seq<char>| fs@.files.contains_key(d) && #[trigger] fs@.files[d].contains_key(n) implies exists|q: int|
                                0 <= q < k + 1 && extracted(es[q]) && #[trigger] entry_file(es[q]) == (d, n) && fs@.files[d][n] == ContentView::Resident(es[q].2->0) by {
                                if d == fd && n == fnm {
                                    assert(0 <= k < k + 1 && extracted(es[k as int]) && entry_file(es[k as int]) == (d, n)
                                        && fs@.files[d][n] == ContentView::Resident(es[k as int].2->0));
                                } else {
                                    assert(before.files.contains_key(d) && before.files[d].contains_key(n));
                                    let q = choose|q: int| 0 <= q < k && extracted(es[q]) && #[trigger] entry_file(es[q]) == (d, n)
                                        && before.files[d][n] == ContentView::Resident(es[q].2->0);
                                    assert(0 <= q < k + 1 && extracted(es[q]) && entry_file(es[q]) == (d, n) && fs@.files[d][n] == ContentView::Resident(es[q].2->0));
                                }
                            }
                        }
                    },
                    None => {
                        assert(orphan(es, k as int));
                        return Err(ArchiveError::Malformed);
                    },
                }
            }
        }
        k += 1;
    }
    proof {
        assert forall|q: int| 0 <= q < es.len() implies !#[trigger] orphan(es, q) by {
            if extracted(es[q]) {
                let (d, n) = entry_file(es[q]);
                assert(fs@.files.contains_key(d));
            }
        }
    }
    proof {
        assert forall|d: Seq<Step>| #[trigger] fs@.files.contains_key(d) implies all_in(d) by {
            if d.len() > 0 {
                let q = choose|q: int| 0 <= q < es.len() && es[q].1 && #[trigger] entry_dir(es[q]) == d;
                lemma_entry_dir_all_in(es[q]);
            }
        }
    }
    Ok(fs)
}

/// Extracts a password-protected archive, its top treated as the root: bytes that hold no
/// archive are malformed; an entry that cannot be opened with the password fails; the
/// entries read are extracted as `extraction` says.
pub fn get_zip_contents(bytes: Vec<u8>, password: &[u8]) -> (r: Result<AbyssFileSystem, ArchiveError>)
    ensures
        archive_count(bytes@) is None ==> r matches Err(ArchiveError::Malformed),
        archive_count(bytes@) matches Some(n) ==> match archive_entries(bytes@, password@, n) {
            None => r matches Err(ArchiveError::Password),
            Some(es) => extraction(es, r),
        },
{
    let n = match archive_len(&bytes) {
        Some(n) => n,
        None => return Err(ArchiveError::Malformed),
    };
    let mut entries: Vec<ArchiveEntry> = Vec::new();
    let mut i: usize = 0;
    while i < n
        invariant
            i <= n,
            archive_count(bytes@) == Some(n as nat),
            archive_entries(bytes@, password@, i as nat) == Some(entry_views(entries@)),
        decreases n - i,
    {
        match read_entry(&bytes, i, password) {
            Some(e) => {
                let ghost ev = e@;
                entries.push(e);
                assert(entry_views(entries@) =~= archive_entries(bytes@, password@, i as nat)->0.push(ev));
            },
            None => {
                proof {
                    lemma_entries_stop(bytes@, password@, i as nat, n as nat);
                }
                return Err(ArchiveError::Password);
            },
        }
        i += 1;
    }
    build_tree(&entries)
}

proof fn lemma_entries_stop(bytes: Seq<u8>, password: Seq<u8>, i: nat, n: nat)
    requires
        i < n,
        archive_entry(bytes, password, i) is None,
    ensures
        archive_entries(bytes, password, n) is None,
    decreases n - i,
{
    if i + 1 < n {
        lemma_entries_stop(bytes, password, i, (n - 1) as nat);
    }
}

/// Adds each file listing of the extracted tree to the eager store, under `base`; they win
/// over what was there.
pub fn mount_archive(vfs: &mut VirtualFilesystem, base: &DirPath, tree: &AbyssFileSystem)
    requires
        old(vfs).wf(),
        tree.wf(),
        keys_all_in(tree@.files),
    ensures
        final(vfs).wf(),
        final(vfs)@ == old(vfs)@.union_prefer_right(mounted(tree@.files, base@)),
{
    let n = tree.listing_count();
    let ghost s = tree.listing_pairs();
    let ghost start = vfs@;
    proof {
        tree.lemma_listing_layout();
    }
    assert(s.subrange(0, 0) =~= Seq::<(Seq<Step>, Map<Seq<char>, crate::store::ContentView>)>::empty());
    assert(start.union_prefer_right(mounted(map_of(s.subrange(0, 0)), base@)) =~= start);
    let mut i: usize = 0;
    while i < n
        invariant
            i <= n,
            n == s.len(),
            s == tree.listing_pairs(),
            crate::table::unique_keys(s),
            tree@.files == map_of(s),
            tree.wf(),
            keys_all_in(tree@.files),
            vfs.wf(),
            vfs@ == start.union_prefer_right(mounted(map_of(s.subrange(0, i as int)), base@)),
        decreases n - i,
    {
        let (d, listing) = tree.listing_at(i);
        proof {
            lemma_map_of_at(s, i as int);
            lemma_replay_descents(base@, d@, true);
            lemma_map_of_prefix(s, i as int);
            lemma_mounted_insert(map_of(s.subrange(0, i as int)), base@, s[i as int].0, s[i as int].1);
        }
        vfs.insert_listing(base.concat(d, true), listing.copy());
        assert(vfs@ =~= start.union_prefer_right(mounted(map_of(s.subrange(0, i + 1)), base@)));
        i += 1;
    }
    assert(s.subrange(0, s.len() as int) =~= s);
}

} // verus!
