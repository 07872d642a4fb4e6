use vstd::prelude::*;

use crate::table::{lemma_map_of_at, Duplicate, Table};
use crate::text::{listed_names, listing_names, sorted_texts, texts_of};

verus! {

/// What is known of a file's content.
pub enum ContentView {
    Resident(Seq<char>),
    Pending,
}

/// A file's content: held in memory, or known to exist remotely and not yet fetched.
#[derive(Debug)]
pub enum Content {
    InMemory(String),
    ToFetch,
}

impl View for Content {
    type V = ContentView;

    open spec fn view(&self) -> ContentView {
        match self {
            Content::InMemory(s) => ContentView::Resident(s@),
            Content::ToFetch => ContentView::Pending,
        }
    }
}

impl Clone for Content {
    fn clone(&self) -> (r: Self)
        ensures
            r@ == self@,
    {
        match self {
            Content::InMemory(s) => Content::InMemory(s.clone()),
            Content::ToFetch => Content::ToFetch,
        }
    }
}

impl Duplicate for Content {
    open spec fn ok(&self) -> bool {
        true
    }

    fn duplicate(&self) -> (r: Self) {
        self.clone()
    }
}

/// The listing in which each of `names` is a file whose content is still to be fetched.
pub open spec fn pending_listing(names: Seq<Seq<char>>) -> Map<Seq<char>, ContentView> {
    Map::new(|k: Seq<char>| names.contains(k), |k: Seq<char>| ContentView::Pending)
}

proof fn lemma_push_contains(names: Seq<Seq<char>>, x: Seq<char>)
    ensures
        forall|k: Seq<char>| #[trigger] names.push(x).contains(k) <==> names.contains(k) || k == x,
{
    assert forall|k: Seq<char>| #[trigger] names.push(x).contains(k) <==> names.contains(k) || k == x by {
        if names.push(x).contains(k) {
            let i = choose|i: int| 0 <= i < names.push(x).len() && names.push(x)[i] == k;
            if i < names.len() {
                assert(names[i] == k);
            }
        }
        if names.contains(k) {
            let i = choose|i: int| 0 <= i < names.len() && names[i] == k;
            assert(names.push(x)[i] == k);
        }
        if k == x {
            assert(names.push(x)[names.len() as int] == k);
        }
    }
}

/// The files of one directory, as currently known: name to content.
pub struct Contents {
    files: Table<String, Content>,
}

impl View for Contents {
    type V = Map<Seq<char>, ContentView>;

    closed spec fn view(&self) -> Map<Seq<char>, ContentView> {
        self.files@
    }
}

impl Contents {
    pub closed spec fn wf(&self) -> bool {
        self.files.wf()
    }

    pub fn new() -> (r: Contents)
        ensures
            r.wf(),
            r@ == Map::<Seq<char>, ContentView>::empty(),
    {
        Contents { files: Table::new() }
    }

    /// Reads a `!!contents.txt` listing: each name it lists is a file still to be fetched.
    pub fn from_file(text: &str) -> (r: Contents)
        ensures
            r.wf(),
            r@ == pending_listing(listing_names(text@)),
    {
        let names = listed_names(text);
        let ghost ns = names@.map_values(|x: String| x@);
        let mut r = Contents::new();
        assert(r@ =~= pending_listing(ns.subrange(0, 0)));
        let mut i: usize = 0;
        while i < names.len()
            invariant
                i <= names.len(),
                ns == names@.map_values(|x: String| x@),
                r.wf(),
                r@ == pending_listing(ns.subrange(0, i as int)),
            decreases names.len() - i,
        {
            r.insert(names[i].clone(), Content::ToFetch);
            proof {
                assert(ns.subrange(0, i + 1) =~= ns.subrange(0, i as int).push(ns[i as int]));
                lemma_push_contains(ns.subrange(0, i as int), ns[i as int]);
                assert(r@ =~= pending_listing(ns.subrange(0, i + 1)));
            }
            i += 1;
        }
        assert(ns.subrange(0, ns.len() as int) =~= ns);
        r
    }

    /// Adds the files of `other`, whose entries win where both have a name.
    pub fn extend(&mut self, other: Contents)
        requires
            old(self).wf(),
            other.wf(),
        ensures
            final(self).wf(),
            final(self)@ == old(self)@.union_prefer_right(other@),
    {
        self.files.absorb(&other.files);
    }

    pub fn get(&self, filename: &str) -> (r: Option<&Content>)
        requires
            self.wf(),
        ensures
            r matches Some(c) ==> self@.contains_key(filename@) && self@[filename@] == c@,
            r is None ==> !self@.contains_key(filename@),
    {
        self.files.get(&String::from_str(filename))
    }

    pub fn contains(&self, filename: &str) -> (r: bool)
        requires
            self.wf(),
        ensures
            r == self@.contains_key(filename@),
    {
        self.files.contains_key(&String::from_str(filename))
    }

    pub fn insert(&mut self, name: String, content: Content)
        requires
            old(self).wf(),
        ensures
            final(self).wf(),
            final(self)@ == old(self)@.insert(name@, content@),
    {
        self.files.insert(name, content);
    }

    pub fn remove(&mut self, filename: &str) -> (r: Option<Content>)
        requires
            old(self).wf(),
        ensures
            final(self).wf(),
            final(self)@ == old(self)@.remove(filename@),
            r matches Some(c) ==> old(self)@.contains_key(filename@) && old(self)@[filename@] == c@,
            r is None ==> !old(self)@.contains_key(filename@),
    {
        self.files.remove(&String::from_str(filename))
    }

    pub fn is_empty(&self) -> (r: bool)
        requires
            self.wf(),
        ensures
            r == (self@.dom() == Set::<Seq<char>>::empty()),
    {
        let names = self.files.sorted_keys();
        proof {
            if names@.len() > 0 {
                assert(texts_of(names@).to_set().contains(texts_of(names@)[0]));
            } else {
                assert(texts_of(names@).to_set() =~= Set::<Seq<char>>::empty());
            }
        }
        names.len() == 0
    }

    /// The file names in code point order.
    pub fn sorted_names(&self) -> (r: Vec<String>)
        requires
            self.wf(),
        ensures
            sorted_texts(texts_of(r@)),
            texts_of(r@).to_set() == self@.dom(),
    {
        self.files.sorted_keys()
    }
}

/// The pairs of name and text of the resident files of a listing.
pub open spec fn resident_pairs(m: Map<Seq<char>, ContentView>) -> Set<(Seq<char>, Seq<char>)> {
    Set::new(|e: (Seq<char>, Seq<char>)| m.contains_key(e.0) && m[e.0] == ContentView::Resident(e.1))
}

pub open spec fn pair_views(v: Seq<(String, String)>) -> Seq<(Seq<char>, Seq<char>)> {
    v.map_values(|e: (String, String)| (e.0@, e.1@))
}

impl Contents {
    /// The name and text of each resident file.
    pub fn resident_files(&self) -> (r: Vec<(String, String)>)
        requires
            self.wf(),
        ensures
            pair_views(r@).to_set() == resident_pairs(self@),
    {
        let n = self.files.len();
        let ghost s = self.files.pairs();
        let mut out: Vec<(String, String)> = Vec::new();
        let mut i: usize = 0;
        assert(pair_views(out@).to_set() =~= Set::<(Seq<char>, Seq<char>)>::empty());
        while i < n
            invariant
                i <= n,
                n == s.len(),
                s == self.files.pairs(),
                self.wf(),
                pair_views(out@).to_set() == Set::new(|e: (Seq<char>, Seq<char>)| exists|j: int| 0 <= j < i && #[trigger] s[j] == (e.0, ContentView::Resident(e.1))),
            decreases n - i,
        {
            let ghost before = pair_views(out@);
            match self.files.value_at(i) {
                Content::InMemory(t) => {
                    out.push((self.files.key_at(i).clone(), t.clone()));
                    assert(pair_views(out@) =~= before.push((s[i as int].0, t@)));
                },
                Content::ToFetch => {},
            }
            proof {
                assert forall|e: (Seq<char>, Seq<char>)| #[trigger] pair_views(out@).to_set().contains(e) <==> exists|j: int| 0 <= j < i + 1 && #[trigger] s[j] == (e.0, ContentView::Resident(e.1)) by {
                    if pair_views(out@).to_set().contains(e) {
                        let k = choose|k: int| 0 <= k < pair_views(out@).len() && pair_views(out@)[k] == e;
                        if k < before.len() {
                            assert(before.to_set().contains(e));
                        }
                    }
                    if exists|j: int| 0 <= j < i + 1 && #[trigger] s[j] == (e.0, ContentView::Resident(e.1)) {
                        let j = choose|j: int| 0 <= j < i + 1 && #[trigger] s[j] == (e.0, ContentView::Resident(e.1));
                        if j < i {
                            assert(before.to_set().contains(e));
                            let k = choose|k: int| 0 <= k < before.len() && before[k] == e;
                            assert(pair_views(out@)[k] == e);
                        } else {
                            assert(pair_views(out@)[before.len() as int] == e);
                        }
                    }
                }
                assert(pair_views(out@).to_set() =~= Set::new(|e: (Seq<char>, Seq<char>)| exists|j: int| 0 <= j < i + 1 && #[trigger] s[j] == (e.0, ContentView::Resident(e.1))));
            }
            i += 1;
        }
        proof {
            assert forall|e: (Seq<char>, Seq<char>)| #[trigger] pair_views(out@).to_set().contains(e) <==> resident_pairs(self@).contains(e) by {
                if pair_views(out@).to_set().contains(e) {
                    let j = choose|j: int| 0 <= j < n && #[trigger] s[j] == (e.0, ContentView::Resident(e.1));
                    lemma_map_of_at(s, j);
                }
                if resident_pairs(self@).contains(e) {
                    let j = choose|j: int| 0 <= j < s.len() && #[trigger] s[j].0 == e.0;
                    lemma_map_of_at(s, j);
                    assert(s[j] == (e.0, ContentView::Resident(e.1)));
                }
            }
            assert(pair_views(out@).to_set() =~= resident_pairs(self@));
        }
        out
    }
}

impl Duplicate for Contents {
    open spec fn ok(&self) -> bool {
        self.wf()
    }

    fn duplicate(&self) -> (r: Self) {
        Contents { files: self.files.duplicate() }
    }
}

impl Contents {
    /// A copy with the same files.
    pub fn copy(&self) -> (r: Contents)
        requires
            self.wf(),
        ensures
            r.wf(),
            r@ == self@,
    {
        let mut r = Contents::new();
        r.files.absorb(&self.files);
        assert(r@ =~= self@);
        r
    }
}

/// Marks a name as present in a set of names.
pub struct Present;

impl View for Present {
    type V = ();

    open spec fn view(&self) -> () {
        ()
    }
}

impl Duplicate for Present {
    open spec fn ok(&self) -> bool {
        true
    }

    fn duplicate(&self) -> (r: Self) {
        Present
    }
}

/// The child directories of one directory, as currently known.
pub struct Directories {
    names: Table<String, Present>,
}

impl View for Directories {
    type V = Set<Seq<char>>;

    closed spec fn view(&self) -> Set<Seq<char>> {
        self.names@.dom()
    }
}

impl Duplicate for Directories {
    open spec fn ok(&self) -> bool {
        self.wf()
    }

    fn duplicate(&self) -> (r: Self) {
        Directories { names: self.names.duplicate() }
    }
}

impl Directories {
    pub closed spec fn wf(&self) -> bool {
        self.names.wf()
    }

    pub fn new() -> (r: Directories)
        ensures
            r.wf(),
            r@ == Set::<Seq<char>>::empty(),
    {
        let r = Directories { names: Table::new() };
        assert(r@ =~= Set::<Seq<char>>::empty());
        r
    }

    /// Reads a `!!directories.txt` listing: the names it lists.
    pub fn from_file(text: &str) -> (r: Directories)
        ensures
            r.wf(),
            r@ == listing_names(text@).to_set(),
    {
        let names = listed_names(text);
        let ghost ns = names@.map_values(|x: String| x@);
        let mut r = Directories::new();
        assert(r@ =~= ns.subrange(0, 0).to_set());
        let mut i: usize = 0;
        while i < names.len()
            invariant
                i <= names.len(),
                ns == names@.map_values(|x: String| x@),
                r.wf(),
                r@ == ns.subrange(0, i as int).to_set(),
            decreases names.len() - i,
        {
            r.insert(names[i].clone());
            proof {
                assert(ns.subrange(0, i + 1) =~= ns.subrange(0, i as int).push(ns[i as int]));
                lemma_push_contains(ns.subrange(0, i as int), ns[i as int]);
                assert(r@ =~= ns.subrange(0, i + 1).to_set());
            }
            i += 1;
        }
        assert(ns.subrange(0, ns.len() as int) =~= ns);
        r
    }

    /// Adds the names of `other`.
    pub fn extend(&mut self, other: &Directories)
        requires
            old(self).wf(),
            other.wf(),
        ensures
            final(self).wf(),
            final(self)@ == old(self)@.union(other@),
    {
        self.names.absorb(&other.names);
        assert(self@ =~= old(self)@.union(other@));
    }

    pub fn contains(&self, dirname: &str) -> (r: bool)
        requires
            self.wf(),
        ensures
            r == self@.contains(dirname@),
    {
        self.names.contains_key(&String::from_str(dirname))
    }

    pub fn insert(&mut self, name: String)
        requires
            old(self).wf(),
        ensures
            final(self).wf(),
            final(self)@ == old(self)@.insert(name@),
    {
        self.names.insert(name, Present);
        assert(self@ =~= old(self)@.insert(name@));
    }

    pub fn remove(&mut self, dirname: &str) -> (r: bool)
        requires
            old(self).wf(),
        ensures
            final(self).wf(),
            final(self)@ == old(self)@.remove(dirname@),
            r == old(self)@.contains(dirname@),
    {
        let r = self.names.remove(&String::from_str(dirname));
        assert(self@ =~= old(self)@.remove(dirname@));
        r.is_some()
    }

    /// The names in code point order.
    pub fn sorted_names(&self) -> (r: Vec<String>)
        requires
            self.wf(),
        ensures
            sorted_texts(texts_of(r@)),
            texts_of(r@).to_set() == self@,
    {
        self.names.sorted_keys()
    }

    pub fn is_empty(&self) -> (r: bool)
        requires
            self.wf(),
        ensures
            r == (self@ == Set::<Seq<char>>::empty()),
    {
        let names = self.names.sorted_keys();
        proof {
            if names@.len() > 0 {
                assert(texts_of(names@).to_set().contains(texts_of(names@)[0]));
            } else {
                assert(texts_of(names@).to_set() =~= Set::<Seq<char>>::empty());
            }
        }
        names.len() == 0
    }

    /// A copy with the same names.
    pub fn copy(&self) -> (r: Directories)
        requires
            self.wf(),
        ensures
            r.wf(),
            r@ == self@,
    {
        let mut r = Directories::new();
        r.names.absorb(&self.names);
        assert(r@ =~= self@);
        r
    }
}

} // verus!
