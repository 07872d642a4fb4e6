use vstd::prelude::*;

use crate::numbers::{decimal, decimal_text, lemma_decimal_injective, parse_u8, parse_unsigned, random_below};
use crate::overlay::{keys_all_in, AbyssFileSystem, Cache};
use crate::path::{all_in, DirPath, NextDir, Step};
use crate::store::{Content, ContentView, Contents, Directories};

verus! {

/// The name of the directory under which the generated maze is mounted.
pub const CAVE_NAME: &'static str = "cave_of_dice";

pub const README: &'static str = "Hope you like dice, there are a lot of them here.";

/// No directory of the maze deeper than this has children.
pub const MAX_DEPTH: u64 = 12;

pub open spec fn is_size(n: nat) -> bool {
    n == 4 || n == 6 || n == 8 || n == 10 || n == 12 || n == 20
}

pub open spec fn size_of_class(k: nat) -> nat {
    if k == 0 {
        4
    } else if k == 1 {
        6
    } else if k == 2 {
        8
    } else if k == 3 {
        10
    } else if k == 4 {
        12
    } else {
        20
    }
}

/// The size classes, in order.
pub fn size_class(k: u64) -> (r: u64)
    requires
        k < 6,
    ensures
        is_size(r as nat),
        r == size_of_class(k as nat),
{
    if k == 0 {
        4
    } else if k == 1 {
        6
    } else if k == 2 {
        8
    } else if k == 3 {
        10
    } else if k == 4 {
        12
    } else {
        20
    }
}

/// `d` and the size: the name of a size class's directory.
pub open spec fn size_dir_name(n: nat) -> Seq<char> {
    seq!['d'] + decimal(n)
}

/// `d`, the size and `.txt`: the one file of a maze directory.
pub open spec fn dice_file(n: nat) -> Seq<char> {
    seq!['d'] + decimal(n) + seq!['.', 't', 'x', 't']
}

pub open spec fn route_name(i: nat) -> Seq<char> {
    seq!['r', 'o', 'u', 't', 'e', '_'] + decimal(i)
}

proof fn lemma_route_name_injective(i: nat, j: nat)
    requires
        route_name(i) == route_name(j),
    ensures
        i == j,
{
    assert(route_name(i).subrange(6, route_name(i).len() as int) =~= decimal(i));
    assert(route_name(j).subrange(6, route_name(j).len() as int) =~= decimal(j));
    lemma_decimal_injective(i, j);
}

proof fn lemma_size_dir_name_injective(a: nat, b: nat)
    requires
        size_dir_name(a) == size_dir_name(b),
    ensures
        a == b,
{
    assert(size_dir_name(a).drop_first() =~= decimal(a));
    assert(size_dir_name(b).drop_first() =~= decimal(b));
    lemma_decimal_injective(a, b);
}

/// `q` is `p` or lies below it.
pub open spec fn extends(q: Seq<Step>, p: Seq<Step>) -> bool {
    q.len() >= p.len() && q.subrange(0, p.len() as int) == p
}

proof fn lemma_extends_push(q: Seq<Step>, p: Seq<Step>, s: Step)
    requires
        extends(q, p.push(s)),
    ensures
        extends(q, p),
        q[p.len() as int] == s,
{
    assert(q.subrange(0, p.len() as int) =~= p.push(s).subrange(0, p.len() as int));
    assert(p.push(s).subrange(0, p.len() as int) =~= p);
    assert(q[p.len() as int] == q.subrange(0, p.len() as int + 1)[p.len() as int]);
}

/// A maze directory below the root holds one pending dice file of a size class `n`, and as
/// subdirectories only routes `route_i` with `1 <= i < n`.
pub open spec fn node_ok(files: Map<Seq<char>, ContentView>, dirs: Set<Seq<char>>) -> bool {
    exists|n: nat|
        is_size(n) && files == map![#[trigger] dice_file(n) => ContentView::Pending] && (forall|x: Seq<char>|
            #[trigger] dirs.contains(x) ==> exists|i: nat| 1 <= i < n && x == route_name(i))
}

/// Each listed subdirectory has an entry of its own.
pub open spec fn closed(c: Cache) -> bool {
    forall|p: Seq<Step>, x: Seq<char>|
        c.dirs.contains_key(p) && #[trigger] c.dirs[p].contains(x) ==> c.files.contains_key(p.push(Step::In(x)))
}

/// What holds of every maze below the root, whatever was drawn.
pub open spec fn maze_ok(c: Cache) -> bool {
    &&& c.files.dom() == c.dirs.dom()
    &&& keys_all_in(c.files)
    &&& keys_all_in(c.dirs)
    &&& forall|p: Seq<Step>| #[trigger] c.files.contains_key(p) && p.len() > 0 ==> node_ok(c.files[p], c.dirs[p])
    &&& closed(c)
}

/// The whole maze: the root holds the readme and one directory per size class, whose one
/// file is the dice file of its size.
pub open spec fn cave_ok(c: Cache) -> bool {
    &&& maze_ok(c)
    &&& c.files.contains_key(Seq::empty())
    &&& c.files[Seq::empty()] == map!["README.md"@ => ContentView::Resident(README@)]
    &&& c.dirs[Seq::empty()] == Set::new(|x: Seq<char>| exists|n: nat| is_size(n) && x == size_dir_name(n))
    &&& forall|n: nat| is_size(n) ==> {
        &&& c.files.contains_key(seq![Step::In(#[trigger] size_dir_name(n))])
        &&& c.files[seq![Step::In(size_dir_name(n))]] == map![dice_file(n) => ContentView::Pending]
    }
}

/// Every entry of `a` stays in `b`, unchanged.
pub open spec fn keeps(a: Cache, b: Cache) -> bool {
    forall|q: Seq<Step>|
        #[trigger] a.files.contains_key(q) ==> b.files.contains_key(q) && b.files[q] == a.files[q] && b.dirs[q] == a.dirs[q]
}

fn text_with_number(prefix: &str, n: u64, suffix: &str) -> (r: String)
    ensures
        r@ == prefix@ + decimal(n as nat) + suffix@,
{
    let mut r = String::from_str(prefix);
    r.append(decimal_text(n).as_str());
    r.append(suffix);
    r
}

fn dice_file_text(n: u64) -> (r: String)
    ensures
        r@ == dice_file(n as nat),
{
    proof {
        reveal_strlit("d");
        reveal_strlit(".txt");
        assert("d"@ =~= seq!['d']);
        assert(".txt"@ =~= seq!['.', 't', 'x', 't']);
    }
    text_with_number("d", n, ".txt")
}

fn add_node(fs: &mut AbyssFileSystem, path: &DirPath, n: u64, subdirs: Directories)
    requires
        old(fs).wf(),
        subdirs.wf(),
        maze_ok(old(fs)@),
        all_in(path@),
        path@.len() > 0,
        is_size(n as nat),
        !old(fs)@.files.contains_key(path@),
        forall|x: Seq<char>| #[trigger] subdirs@.contains(x) ==> (exists|i: nat| 1 <= i < n && x == route_name(i))
            && old(fs)@.files.contains_key(path@.push(Step::In(x))),
    ensures
        final(fs).wf(),
        maze_ok(final(fs)@),
        keeps(old(fs)@, final(fs)@),
        final(fs)@.files.dom() == old(fs)@.files.dom().insert(path@),
        final(fs)@.files[path@] == map![dice_file(n as nat) => ContentView::Pending],
{
    let ghost before = fs@;
    let ghost sd = subdirs@;
    let mut files = Contents::new();
    files.insert(dice_file_text(n), Content::ToFetch);
    assert(files@ =~= map![dice_file(n as nat) => ContentView::Pending]);
    fs.cache_directories(path.clone(), subdirs);
    fs.cache_contents(path.clone(), files);
    proof {
        let c = fs@;
        assert(c.files.dom() =~= c.dirs.dom());
        assert(c.files.dom() =~= before.files.dom().insert(path@));
        assert(node_ok(c.files[path@], c.dirs[path@])) by {
            assert(is_size(n as nat) && c.files[path@] == map![dice_file(n as nat) => ContentView::Pending]);
        }
        assert forall|p: Seq<Step>| #[trigger] c.files.contains_key(p) && p.len() > 0 implies node_ok(c.files[p], c.dirs[p]) by {
            if p != path@ {
                assert(before.files.contains_key(p));
            }
        }
        assert forall|p: Seq<Step>, x: Seq<char>| c.dirs.contains_key(p) && #[trigger] c.dirs[p].contains(x) implies c.files.contains_key(p.push(Step::In(x))) by {
            if p != path@ {
                assert(before.dirs.contains_key(p) && before.dirs[p].contains(x));
            }
        }
    }
}

/// Builds the maze below `path`, a directory of size `n` at depth `depth`: each route
/// `route_i`, `1 <= i < n`, exists with probability `3 / (n * depth)`, with a size drawn at
/// random.
fn grow(fs: &mut AbyssFileSystem, path: &DirPath, n: u64, depth: u64)
    requires
        old(fs).wf(),
        maze_ok(old(fs)@),
        all_in(path@),
        path@.len() > 0,
        is_size(n as nat),
        1 <= depth <= MAX_DEPTH,
        forall|q: Seq<Step>| #[trigger] old(fs)@.files.contains_key(q) ==> !extends(q, path@),
    ensures
        final(fs).wf(),
        maze_ok(final(fs)@),
        keeps(old(fs)@, final(fs)@),
        forall|q: Seq<Step>| #[trigger] final(fs)@.files.contains_key(q) ==> old(fs)@.files.contains_key(q) || extends(q, path@),
        final(fs)@.files.contains_key(path@),
        final(fs)@.files[path@] == map![dice_file(n as nat) => ContentView::Pending],
    decreases MAX_DEPTH - depth,
{
    let ghost start = fs@;
    let mut subdirs = Directories::new();
    let bound: u64 = if depth < MAX_DEPTH { n } else { 1 };
    let mut i: u64 = 1;
    while i < bound
        invariant
            1 <= i <= bound,
            bound <= n,
            bound > 1 ==> 1 <= depth < MAX_DEPTH,
            fs.wf(),
            maze_ok(fs@),
            keeps(start, fs@),
            subdirs.wf(),
            all_in(path@),
            path@.len() > 0,
            is_size(n as nat),
            forall|q: Seq<Step>| #[trigger] start.files.contains_key(q) ==> !extends(q, path@),
            forall|q: Seq<Step>| #[trigger] fs@.files.contains_key(q) ==> start.files.contains_key(q)
                || exists|j: nat| 1 <= j < i && extends(q, path@.push(Step::In(#[trigger] route_name(j)))),
            forall|x: Seq<char>| #[trigger] subdirs@.contains(x) ==> (exists|j: nat| 1 <= j < i && x == route_name(j))
                && fs@.files.contains_key(path@.push(Step::In(x))),
        decreases bound - i,
    {
        if random_below(n * depth) < 3 {
            proof {
                reveal_strlit("route_");
                assert("route_"@ =~= seq!['r', 'o', 'u', 't', 'e', '_']);
                assert(""@.len() == 0) by {
                    reveal_strlit("");
                }
            }
            let name = text_with_number("route_", i, "");
            assert(name@ =~= route_name(i as nat));
            let mut child = path.clone();
            child.0.push(NextDir::In(name.clone()));
            let ghost c = path@.push(Step::In(name@));
            assert(child@ =~= c);
            let ghost fs1 = fs@;
            proof {
                assert forall|k: int| 0 <= k < c.len() implies #[trigger] c[k] is In by {
                    if k < path@.len() {
                        assert(c[k] == path@[k]);
                    }
                }
                assert forall|q: Seq<Step>| #[trigger] fs1.files.contains_key(q) implies !extends(q, c) by {
                    if extends(q, c) {
                        lemma_extends_push(q, path@, Step::In(name@));
                        if !start.files.contains_key(q) {
                            let j = choose|j: nat| 1 <= j < i && extends(q, path@.push(Step::In(#[trigger] route_name(j))));
                            lemma_extends_push(q, path@, Step::In(route_name(j)));
                            lemma_route_name_injective(i as nat, j);
                        }
                    }
                }
            }
            let size = size_class(random_below(6));
            grow(fs, &child, size, depth + 1);
            let ghost sd0 = subdirs@;
            subdirs.insert(name);
            proof {
                let fs2 = fs@;
                assert forall|q: Seq<Step>| #[trigger] start.files.contains_key(q) implies fs2.files.contains_key(q) && fs2.files[q]
                    == start.files[q] && fs2.dirs[q] == start.dirs[q] by {
                    assert(fs1.files.contains_key(q));
                }
                assert forall|q: Seq<Step>| #[trigger] fs2.files.contains_key(q) implies start.files.contains_key(q)
                    || exists|j: nat| 1 <= j < i + 1 && extends(q, path@.push(Step::In(#[trigger] route_name(j)))) by {
                    if fs1.files.contains_key(q) {
                        if !start.files.contains_key(q) {
                            let j = choose|j: nat| 1 <= j < i && extends(q, path@.push(Step::In(#[trigger] route_name(j))));
                            assert(1 <= j < i + 1);
                        }
                    } else {
                        assert(extends(q, path@.push(Step::In(route_name(i as nat)))));
                    }
                }
                assert forall|x: Seq<char>| #[trigger] subdirs@.contains(x) implies (exists|j: nat| 1 <= j < i + 1 && x == route_name(j))
                    && fs2.files.contains_key(path@.push(Step::In(x))) by {
                    if x == name@ {
                        assert(1 <= i < i + 1 && x == route_name(i as nat));
                    } else {
                        assert(sd0.contains(x));
                        assert(fs1.files.contains_key(path@.push(Step::In(x))));
                    }
                }
            }
        }
        i += 1;
    }
    let ghost fs1 = fs@;
    proof {
        if fs1.files.contains_key(path@) && !start.files.contains_key(path@) {
            let j = choose|j: nat| 1 <= j < i && extends(path@, path@.push(Step::In(#[trigger] route_name(j))));
        }
        assert(path@.subrange(0, path@.len() as int) =~= path@);
        assert forall|x: Seq<char>| #[trigger] subdirs@.contains(x) implies (exists|k: nat| 1 <= k < n && x == route_name(k))
            && fs1.files.contains_key(path@.push(Step::In(x))) by {
            let j = choose|j: nat| 1 <= j < i && x == route_name(j);
            assert(1 <= j < n && x == route_name(j));
        }
    }
    add_node(fs, path, n, subdirs);
    proof {
        let fs2 = fs@;
        assert forall|q: Seq<Step>| #[trigger] start.files.contains_key(q) implies fs2.files.contains_key(q) && fs2.files[q]
            == start.files[q] && fs2.dirs[q] == start.dirs[q] by {
            assert(fs1.files.contains_key(q));
        }
        assert forall|q: Seq<Step>| #[trigger] fs2.files.contains_key(q) implies start.files.contains_key(q) || extends(q, path@) by {
            if q != path@ && !start.files.contains_key(q) {
                assert(fs1.files.contains_key(q));
                let j = choose|j: nat| 1 <= j < i && extends(q, path@.push(Step::In(#[trigger] route_name(j))));
                lemma_extends_push(q, path@, Step::In(route_name(j)));
            }
        }
    }
}

/// Builds the maze: the root holds the readme and one directory per size class, each grown
/// at random.
pub fn build_cave_of_dice() -> (r: AbyssFileSystem)
    ensures
        r.wf(),
        cave_ok(r@),
{
    let mut fs = AbyssFileSystem::new();
    let mut root_dirs = Directories::new();
    proof {
        reveal_strlit("d");
        reveal_strlit("");
        assert("d"@ =~= seq!['d']);
        assert(fs@.files.dom() =~= fs@.dirs.dom());
    }
    let mut k: u64 = 0;
    while k < 6
        invariant
            k <= 6,
            fs.wf(),
            maze_ok(fs@),
            root_dirs.wf(),
            "d"@ == seq!['d'],
            ""@.len() == 0,
            root_dirs@ == Set::new(|x: Seq<char>| exists|j: nat| j < k && x == size_dir_name(size_of_class(j))),
            forall|q: Seq<Step>| #[trigger] fs@.files.contains_key(q) ==> exists|j: nat|
                j < k && extends(q, seq![Step::In(#[trigger] size_dir_name(size_of_class(j)))]),
            forall|j: nat| j < k ==> {
                &&& fs@.files.contains_key(seq![Step::In(#[trigger] size_dir_name(size_of_class(j)))])
                &&& fs@.files[seq![Step::In(size_dir_name(size_of_class(j)))]] == map![dice_file(size_of_class(j)) => ContentView::Pending]
            },
        decreases 6 - k,
    {
        let n = size_class(k);
        let name = text_with_number("d", n, "");
        assert(name@ =~= size_dir_name(n as nat));
        let mut child = DirPath::root();
        child.0.push(NextDir::In(name.clone()));
        let ghost c = seq![Step::In(name@)];
        assert(child@ =~= c);
        let ghost fs1 = fs@;
        proof {
            assert forall|q: Seq<Step>| #[trigger] fs1.files.contains_key(q) implies !extends(q, c) by {
                if extends(q, c) {
                    let j = choose|j: nat| j < k && extends(q, seq![Step::In(#[trigger] size_dir_name(size_of_class(j)))]);
                    lemma_extends_push(q, Seq::<Step>::empty(), Step::In(name@));
                    lemma_extends_push(q, Seq::<Step>::empty(), Step::In(size_dir_name(size_of_class(j))));
                    assert(seq![Step::In(name@)] =~= Seq::<Step>::empty().push(Step::In(name@)));
                    assert(seq![Step::In(size_dir_name(size_of_class(j)))] =~= Seq::<Step>::empty().push(Step::In(size_dir_name(size_of_class(j)))));
                    lemma_size_dir_name_injective(size_of_class(k as nat), size_of_class(j));
                }
            }
        }
        grow(&mut fs, &child, n, 1);
        let ghost before = root_dirs@;
        root_dirs.insert(name);
        proof {
            let fs2 = fs@;
            assert forall|x: Seq<char>| #[trigger] root_dirs@.contains(x) <==> exists|j: nat| j < k + 1 && x == size_dir_name(size_of_class(j)) by {
                if x == size_dir_name(size_of_class(k as nat)) {
                    assert(k < k + 1);
                }
                if exists|j: nat| j < k + 1 && x == size_dir_name(size_of_class(j)) {
                    let j = choose|j: nat| j < k + 1 && x == size_dir_name(size_of_class(j));
                    if j < k {
                        assert(before.contains(x));
                    }
                }
            }
            assert(root_dirs@ =~= Set::new(|x: Seq<char>| exists|j: nat| j < k + 1 && x == size_dir_name(size_of_class(j))));
            assert forall|q: Seq<Step>| #[trigger] fs2.files.contains_key(q) implies exists|j: nat|
                j < k + 1 && extends(q, seq![Step::In(#[trigger] size_dir_name(size_of_class(j)))]) by {
                if fs1.files.contains_key(q) {
                    let j = choose|j: nat| j < k && extends(q, seq![Step::In(#[trigger] size_dir_name(size_of_class(j)))]);
                    assert(j < k + 1);
                } else {
                    assert(extends(q, seq![Step::In(size_dir_name(size_of_class(k as nat)))]));
                }
            }
            assert forall|j: nat| j < k + 1 implies {
                &&& fs2.files.contains_key(seq![Step::In(#[trigger] size_dir_name(size_of_class(j)))])
                &&& fs2.files[seq![Step::In(size_dir_name(size_of_class(j)))]] == map![dice_file(size_of_class(j)) => ContentView::Pending]
            } by {
                if j < k {
                    assert(fs1.files.contains_key(seq![Step::In(size_dir_name(size_of_class(j)))]));
                }
            }
        }
        k += 1;
    }
    let ghost grown = fs@;
    proof {
        if grown.files.contains_key(Seq::<Step>::empty()) {
            let j = choose|j: nat| j < 6 && extends(Seq::<Step>::empty(), seq![Step::In(#[trigger] size_dir_name(size_of_class(j)))]);
        }
    }
    fs.cache_directories(DirPath::root(), root_dirs);
    let mut readme = Contents::new();
    readme.insert(String::from_str("README.md"), Content::InMemory(String::from_str(README)));
    fs.cache_contents(DirPath::root(), readme);
    proof {
        let c = fs@;
        let root = Seq::<Step>::empty();
        assert(c.files.dom() =~= c.dirs.dom());
        assert(c.files[root] =~= map!["README.md"@ => ContentView::Resident(README@)]);
        assert forall|p: Seq<Step>| #[trigger] c.files.contains_key(p) implies all_in(p) by {
            if p != root {
                assert(grown.files.contains_key(p));
            }
        }
        assert forall|p: Seq<Step>| #[trigger] c.dirs.contains_key(p) implies all_in(p) by {
            if p != root {
                assert(grown.dirs.contains_key(p));
            }
        }
        assert forall|p: Seq<Step>| #[trigger] c.files.contains_key(p) && p.len() > 0 implies node_ok(c.files[p], c.dirs[p]) by {
            assert(grown.files.contains_key(p));
        }
        assert forall|x: Seq<char>| #[trigger] c.dirs[root].contains(x) <==> exists|n: nat| is_size(n) && x == size_dir_name(n) by {
            if c.dirs[root].contains(x) {
                let j = choose|j: nat| j < 6 && x == size_dir_name(size_of_class(j));
                assert(is_size(size_of_class(j)));
            }
            if exists|n: nat| is_size(n) && x == size_dir_name(n) {
                let n = choose|n: nat| is_size(n) && x == size_dir_name(n);
                let j: nat = if n == 4 { 0 } else if n == 6 { 1 } else if n == 8 { 2 } else if n == 10 { 3 } else if n == 12 { 4 } else { 5 };
                assert(size_of_class(j) == n);
                assert(j < 6 && x == size_dir_name(size_of_class(j)));
            }
        }
        assert(c.dirs[root] =~= Set::new(|x: Seq<char>| exists|n: nat| is_size(n) && x == size_dir_name(n)));
        assert forall|n: nat| is_size(n) implies {
            &&& c.files.contains_key(seq![Step::In(#[trigger] size_dir_name(n))])
            &&& c.files[seq![Step::In(size_dir_name(n))]] == map![dice_file(n) => ContentView::Pending]
        } by {
            let j: nat = if n == 4 { 0 } else if n == 6 { 1 } else if n == 8 { 2 } else if n == 10 { 3 } else if n == 12 { 4 } else { 5 };
            assert(size_of_class(j) == n);
            assert(grown.files.contains_key(seq![Step::In(size_dir_name(size_of_class(j)))]));
        }
        assert forall|p: Seq<Step>, x: Seq<char>| c.dirs.contains_key(p) && #[trigger] c.dirs[p].contains(x) implies c.files.contains_key(p.push(Step::In(x))) by {
            if p == root {
                let j = choose|j: nat| j < 6 && x == size_dir_name(size_of_class(j));
                assert(root.push(Step::In(x)) =~= seq![Step::In(size_dir_name(size_of_class(j)))]);
            } else {
                assert(grown.dirs.contains_key(p) && grown.dirs[p].contains(x));
            }
        }
    }
    fs
}

/// The size that a dice file's name `d<size>.txt` gives: one `.` only, the size a decimal
/// numeral of at most 255.
pub open spec fn dice_file_size(s: Seq<char>) -> Option<nat> {
    if s.len() >= 5 && s[0] == 'd' && s.subrange(s.len() - 4, s.len() as int) == seq!['.', 't', 'x', 't']
        && (forall|i: int| 1 <= i < s.len() - 4 ==> #[trigger] s[i] != '.') {
        parse_unsigned(s.subrange(1, s.len() - 4), 255)
    } else {
        None
    }
}

/// The size of a dice file, from its name.
pub fn is_dice_file_name(file_name: &str) -> (r: Option<u8>)
    ensures
        r matches Some(v) ==> dice_file_size(file_name@) == Some(v as nat),
        r is None ==> dice_file_size(file_name@) is None,
{
    let n = file_name.unicode_len();
    if n < 5 {
        return None;
    }
    let tail_ok = file_name.get_char(n - 4) == '.' && file_name.get_char(n - 3) == 't' && file_name.get_char(n - 2) == 'x'
        && file_name.get_char(n - 1) == 't';
    if file_name.get_char(0) != 'd' || !tail_ok {
        proof {
            if file_name@.subrange(n - 4, n as int) == seq!['.', 't', 'x', 't'] {
                assert(file_name@[n - 4] == file_name@.subrange(n - 4, n as int)[0]);
                assert(file_name@[n - 3] == file_name@.subrange(n - 4, n as int)[1]);
                assert(file_name@[n - 2] == file_name@.subrange(n - 4, n as int)[2]);
                assert(file_name@[n - 1] == file_name@.subrange(n - 4, n as int)[3]);
            }
        }
        return None;
    }
    assert(file_name@.subrange(n - 4, n as int) =~= seq!['.', 't', 'x', 't']);
    let mut i: usize = 1;
    while i < n - 4
        invariant
            n == file_name@.len(),
            n >= 5,
            1 <= i <= n - 4,
            forall|j: int| 1 <= j < i ==> #[trigger] file_name@[j] != '.',
        decreases n - 4 - i,
    {
        if file_name.get_char(i) == '.' {
            return None;
        }
        i += 1;
    }
    parse_u8(file_name.substring_char(1, n - 4))
}

/// The text that a read of a dice file of size `n` gives: a roll between 1 and `n`, drawn
/// afresh on every read.
pub fn roll_message(n: u8) -> (r: String)
    requires
        n >= 1,
    ensures
        exists|k: nat| 1 <= k <= n && r@ == "You rolled a "@ + decimal(k),
{
    let k = 1 + random_below(n as u64);
    proof {
        reveal_strlit("");
        assert(""@ =~= Seq::<char>::empty());
    }
    let r = text_with_number("You rolled a ", k, "");
    assert(r@ =~= "You rolled a "@ + decimal(k as nat));
    r
}

} // verus!
