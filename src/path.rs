use vstd::prelude::*;

verus! {

/// One move of a path, as a mathematical value.
pub enum Step {
    In(Seq<char>),
    Out,
}

/// One move of a path: descend into a named child, or ascend to the parent.
#[derive(Debug)]
pub enum NextDir {
    In(String),
    Out,
}

impl View for NextDir {
    type V = Step;

    open spec fn view(&self) -> Step {
        match self {
            NextDir::In(name) => Step::In(name@),
            NextDir::Out => Step::Out,
        }
    }
}

impl Clone for NextDir {
    fn clone(&self) -> (r: Self)
        ensures
            r@ == self@,
    {
        match self {
            NextDir::In(name) => NextDir::In(name.clone()),
            NextDir::Out => NextDir::Out,
        }
    }
}

impl PartialEq for NextDir {
    fn eq(&self, other: &NextDir) -> (r: bool) {
        match (self, other) {
            (NextDir::In(a), NextDir::In(b)) => *a == *b,
            (NextDir::Out, NextDir::Out) => true,
            _ => false,
        }
    }
}

impl vstd::std_specs::cmp::PartialEqSpecImpl for NextDir {
    open spec fn obeys_eq_spec() -> bool {
        true
    }

    open spec fn eq_spec(&self, other: &NextDir) -> bool {
        self@ == other@
    }
}

/// A directory path: the moves that lead to it from the root, not necessarily reduced.
#[derive(Debug)]
pub struct DirPath(pub Vec<NextDir>);

impl View for DirPath {
    type V = Seq<Step>;

    open spec fn view(&self) -> Seq<Step> {
        self.0@.map_values(|m: NextDir| m@)
    }
}

/// The path after one move. A descent always appends. An ascent under `clamp` pops the last
/// move if there is one; otherwise it cancels a trailing descent, or else records one more
/// ascent above the root.
pub open spec fn cd_spec(p: Seq<Step>, m: Step, clamp: bool) -> Seq<Step> {
    match m {
        Step::In(_) => p.push(m),
        Step::Out => if clamp {
            if p.len() == 0 {
                p
            } else {
                p.drop_last()
            }
        } else if p.len() > 0 && p.last() is In {
            p.drop_last()
        } else {
            p.push(Step::Out)
        },
    }
}

/// The path reached from `base` by the moves of `moves`, one `cd` after another.
pub open spec fn replay(base: Seq<Step>, moves: Seq<Step>, clamp: bool) -> Seq<Step>
    decreases moves.len(),
{
    if moves.len() == 0 {
        base
    } else {
        cd_spec(replay(base, moves.drop_last(), clamp), moves.last(), clamp)
    }
}

/// The reduced form of a move sequence.
pub open spec fn normal_form(p: Seq<Step>, clamp: bool) -> Seq<Step> {
    replay(Seq::empty(), p, clamp)
}

pub open spec fn all_in(p: Seq<Step>) -> bool {
    forall|i: int| 0 <= i < p.len() ==> #[trigger] p[i] is In
}

pub open spec fn all_out(p: Seq<Step>) -> bool {
    forall|i: int| 0 <= i < p.len() ==> #[trigger] p[i] is Out
}

pub open spec fn step_text(m: Step) -> Seq<char> {
    match m {
        Step::In(name) => seq!['/'] + name,
        Step::Out => seq!['/', '.', '.'],
    }
}

/// Each move rendered as a separator and the child's name, or as `/..`.
pub open spec fn steps_text(p: Seq<Step>) -> Seq<char>
    decreases p.len(),
{
    if p.len() == 0 {
        Seq::empty()
    } else {
        steps_text(p.drop_last()) + step_text(p.last())
    }
}

/// The rendering of a directory path: a lone separator for the root.
pub open spec fn dir_text(p: Seq<Step>) -> Seq<char> {
    if p.len() == 0 {
        seq!['/']
    } else {
        steps_text(p)
    }
}

/// The state of splitting `s` at separators: the non-empty pieces already closed, and the
/// piece still open.
pub open spec fn split_state(s: Seq<char>) -> (Seq<Seq<char>>, Seq<char>)
    decreases s.len(),
{
    if s.len() == 0 {
        (Seq::empty(), Seq::empty())
    } else {
        let prev = split_state(s.drop_last());
        if s.last() == '/' {
            (
                if prev.1.len() > 0 {
                    prev.0.push(prev.1)
                } else {
                    prev.0
                },
                Seq::empty(),
            )
        } else {
            (prev.0, prev.1.push(s.last()))
        }
    }
}

/// The non-empty `/`-separated pieces of `s`, in order.
pub open spec fn segments(s: Seq<char>) -> Seq<Seq<char>> {
    let st = split_state(s);
    if st.1.len() > 0 {
        st.0.push(st.1)
    } else {
        st.0
    }
}

/// One piece of path text applied to a path: `.` stays, `..` ascends, a name descends
/// (ascent clamped at the root).
pub open spec fn walk_segment(p: Seq<Step>, seg: Seq<char>) -> Seq<Step> {
    if seg == seq!['.'] {
        p
    } else if seg == seq!['.', '.'] {
        cd_spec(p, Step::Out, true)
    } else {
        cd_spec(p, Step::In(seg), true)
    }
}

pub open spec fn walk(p: Seq<Step>, segs: Seq<Seq<char>>) -> Seq<Step>
    decreases segs.len(),
{
    if segs.len() == 0 {
        p
    } else {
        walk_segment(walk(p, segs.drop_last()), segs.last())
    }
}

/// Where the text of a path starts: at the root when it begins with a separator.
pub open spec fn start_of(s: Seq<char>, current: Seq<Step>) -> Seq<Step> {
    if s.len() > 0 && s[0] == '/' {
        Seq::empty()
    } else {
        current
    }
}

/// The directory that the text `s` names, seen from `current`.
pub open spec fn parse_dir_spec(s: Seq<char>, current: Seq<Step>) -> Seq<Step> {
    walk(start_of(s, current), segments(s))
}

pub open spec fn last_slash(s: Seq<char>) -> Option<int>
    decreases s.len(),
{
    if s.len() == 0 {
        None
    } else if s.last() == '/' {
        Some(s.len() - 1)
    } else {
        last_slash(s.drop_last())
    }
}

/// The containing directory and the name of the file that the text `s` names, seen from
/// `current`: the name is what follows the last separator.
pub open spec fn parse_file_spec(s: Seq<char>, current: Seq<Step>) -> (Seq<Step>, Seq<char>) {
    match last_slash(s) {
        None => (current, s),
        Some(k) => (walk(start_of(s, current), segments(s.subrange(0, k))), s.subrange(k + 1, s.len() as int)),
    }
}

pub open spec fn parent_spec(p: Seq<Step>) -> Option<Seq<Step>> {
    if p.len() > 0 && p.last() is In {
        Some(p.drop_last())
    } else {
        None
    }
}

pub open spec fn last_name(p: Seq<Step>) -> Option<Seq<char>> {
    if p.len() > 0 {
        match p.last() {
            Step::In(name) => Some(name),
            Step::Out => None,
        }
    } else {
        None
    }
}

/// The rendering of the file `name` in the directory `dir`.
pub open spec fn file_text(dir: Seq<Step>, name: Seq<char>) -> Seq<char> {
    if dir_text(dir) == seq!['/'] {
        seq!['/'] + name
    } else {
        dir_text(dir) + seq!['/'] + name
    }
}

pub open spec fn trim_slashes(s: Seq<char>) -> Seq<char>
    decreases s.len(),
{
    if s.len() > 0 && s[0] == '/' {
        trim_slashes(s.drop_first())
    } else {
        s
    }
}

/// The URL under the content root at which the file `name` of `dir` is served.
pub open spec fn url_text(dir: Seq<Step>, name: Seq<char>) -> Seq<char> {
    let d = dir_text(dir);
    let tail = if d == seq!['/'] {
        Seq::empty()
    } else {
        trim_slashes(d) + seq!['/']
    };
    "./content/"@ + tail + name
}

fn push_step_text(out: &mut String, m: &NextDir)
    ensures
        final(out)@ == old(out)@ + step_text(m@),
{
    match m {
        NextDir::In(name) => {
            out.append("/");
            proof {
                reveal_strlit("/");
            }
            out.append(name.as_str());
        },
        NextDir::Out => {
            out.append("/..");
            proof {
                reveal_strlit("/..");
            }
        },
    }
}

/// Applies one piece of path text to `dir`.
fn walk_one(dir: &mut DirPath, seg: &str)
    ensures
        final(dir)@ == walk_segment(old(dir)@, seg@),
{
    let n = seg.unicode_len();
    if n == 1 && seg.get_char(0) == '.' {
        assert(seg@ =~= seq!['.']);
    } else if n == 2 && seg.get_char(0) == '.' && seg.get_char(1) == '.' {
        assert(seg@ =~= seq!['.', '.']);
        dir.cd(&NextDir::Out, true);
    } else {
        assert(seg@ != seq!['.']) by {
            if n == 1 {
                assert(seg@[0] != seq!['.'][0]);
            }
        }
        assert(seg@ != seq!['.', '.']) by {
            if n == 2 {
                assert(seg@[0] != '.' || seg@[1] != '.');
            }
        }
        dir.cd(&NextDir::In(String::from_str(seg)), true);
    }
}

/// Applies each non-empty `/`-separated piece of `text` to `dir`, in order.
fn walk_text(dir: &mut DirPath, text: &str)
    ensures
        final(dir)@ == walk(old(dir)@, segments(text@)),
{
    let ghost base = dir@;
    let n = text.unicode_len();
    let mut start: usize = 0;
    let mut i: usize = 0;
    while i < n
        invariant
            n == text@.len(),
            start <= i <= n,
            split_state(text@.subrange(0, i as int)).1 == text@.subrange(start as int, i as int),
            dir@ == walk(base, split_state(text@.subrange(0, i as int)).0),
        decreases n - i,
    {
        let c = text.get_char(i);
        let ghost pre = text@.subrange(0, i as int);
        assert(text@.subrange(0, i + 1).drop_last() =~= pre);
        if c == '/' {
            if start < i {
                let seg = text.substring_char(start, i);
                walk_one(dir, seg);
                proof {
                    let done = split_state(pre).0;
                    assert(done.push(seg@).drop_last() =~= done);
                }
            }
            start = i + 1;
            assert(text@.subrange(start as int, i + 1) =~= Seq::<char>::empty());
        } else {
            assert(text@.subrange(start as int, i + 1) =~= text@.subrange(start as int, i as int).push(c));
        }
        i += 1;
    }
    assert(text@.subrange(0, n as int) =~= text@);
    if start < n {
        let seg = text.substring_char(start, n);
        walk_one(dir, seg);
        proof {
            let done = split_state(text@).0;
            assert(done.push(seg@).drop_last() =~= done);
        }
    }
}

/// Each name of a piece list as a descent.
pub open spec fn descents(segs: Seq<Seq<char>>) -> Seq<Step> {
    segs.map_values(|seg: Seq<char>| Step::In(seg))
}

/// The path of a manifest entry: one descent per non-empty `/`-separated piece, `.` and `..`
/// included as names.
pub open spec fn plain_dir(s: Seq<char>) -> Seq<Step> {
    descents(segments(s))
}

/// Descends into each non-empty `/`-separated piece of `text`, in order.
fn descend_text(dir: &mut DirPath, text: &str)
    ensures
        final(dir)@ == old(dir)@ + descents(segments(text@)),
{
    let ghost base = dir@;
    let n = text.unicode_len();
    let mut start: usize = 0;
    let mut i: usize = 0;
    assert(base + descents(Seq::<Seq<char>>::empty()) =~= base);
    while i < n
        invariant
            n == text@.len(),
            start <= i <= n,
            split_state(text@.subrange(0, i as int)).1 == text@.subrange(start as int, i as int),
            dir@ == base + descents(split_state(text@.subrange(0, i as int)).0),
        decreases n - i,
    {
        let c = text.get_char(i);
        let ghost pre = text@.subrange(0, i as int);
        assert(text@.subrange(0, i + 1).drop_last() =~= pre);
        if c == '/' {
            if start < i {
                let seg = text.substring_char(start, i);
                dir.cd(&NextDir::In(String::from_str(seg)), true);
                proof {
                    let done = split_state(pre).0;
                    assert(base + descents(done.push(seg@)) =~= (base + descents(done)).push(Step::In(seg@)));
                }
            }
            start = i + 1;
            assert(text@.subrange(start as int, i + 1) =~= Seq::<char>::empty());
        } else {
            assert(text@.subrange(start as int, i + 1) =~= text@.subrange(start as int, i as int).push(c));
        }
        i += 1;
    }
    assert(text@.subrange(0, n as int) =~= text@);
    if start < n {
        let seg = text.substring_char(start, n);
        dir.cd(&NextDir::In(String::from_str(seg)), true);
        proof {
            let done = split_state(text@).0;
            assert(base + descents(done.push(seg@)) =~= (base + descents(done)).push(Step::In(seg@)));
        }
    }
}

impl DirPath {
    /// The path of a manifest entry; see `plain_dir`.
    pub fn from_plain(text: &str) -> (r: DirPath)
        ensures
            r@ == plain_dir(text@),
    {
        let mut d = DirPath::root();
        descend_text(&mut d, text);
        assert(d@ =~= plain_dir(text@));
        d
    }

    /// The path of the first `n` moves.
    pub fn prefix(&self, n: usize) -> (r: DirPath)
        requires
            n <= self@.len(),
        ensures
            r@ == self@.subrange(0, n as int),
    {
        let mut v: Vec<NextDir> = Vec::new();
        let mut i: usize = 0;
        while i < n
            invariant
                i <= n,
                n <= self.0@.len(),
                v@.len() == i,
                forall|j: int| 0 <= j < i ==> #[trigger] v@[j]@ == self.0@[j]@,
            decreases n - i,
        {
            v.push(self.0[i].clone());
            i += 1;
        }
        let r = DirPath(v);
        assert(r@ =~= self@.subrange(0, n as int));
        r
    }

    /// Whether `other` lies strictly below this path: it is longer and starts with it.
    pub fn is_strict_prefix_of(&self, other: &DirPath) -> (r: bool)
        ensures
            r == (other@.len() > self@.len() && other@.subrange(0, self@.len() as int) == self@),
    {
        let n = self.0.len();
        if other.0.len() <= n {
            return false;
        }
        let mut i: usize = 0;
        while i < n
            invariant
                n == self@.len(),
                n < other@.len(),
                i <= n,
                forall|j: int| 0 <= j < i ==> #[trigger] other@[j] == self@[j],
            decreases n - i,
        {
            if self.0[i] != other.0[i] {
                assert(other@.subrange(0, n as int)[i as int] != self@[i as int]);
                return false;
            }
            i += 1;
        }
        assert(other@.subrange(0, n as int) =~= self@);
        true
    }
}

impl Clone for DirPath {
    fn clone(&self) -> (r: Self)
        ensures
            r@ == self@,
    {
        let mut v: Vec<NextDir> = Vec::new();
        let mut i: usize = 0;
        while i < self.0.len()
            invariant
                i <= self.0.len(),
                v@.len() == i,
                forall|j: int| 0 <= j < i ==> #[trigger] v@[j]@ == self.0@[j]@,
            decreases self.0.len() - i,
        {
            v.push(self.0[i].clone());
            i += 1;
        }
        let r = DirPath(v);
        assert(r@ =~= self@);
        r
    }
}

impl PartialEq for DirPath {
    fn eq(&self, other: &DirPath) -> (r: bool) {
        if self.0.len() != other.0.len() {
            assert(self@.len() != other@.len());
            return false;
        }
        let mut i: usize = 0;
        while i < self.0.len()
            invariant
                i <= self.0.len(),
                self.0.len() == other.0.len(),
                forall|j: int| 0 <= j < i ==> #[trigger] self@[j] == other@[j],
            decreases self.0.len() - i,
        {
            if self.0[i] != other.0[i] {
                assert(self@[i as int] != other@[i as int]);
                return false;
            }
            i += 1;
        }
        assert(self@ =~= other@);
        true
    }
}

impl vstd::std_specs::cmp::PartialEqSpecImpl for DirPath {
    open spec fn obeys_eq_spec() -> bool {
        true
    }

    open spec fn eq_spec(&self, other: &DirPath) -> bool {
        self@ == other@
    }
}

impl DirPath {
    pub fn root() -> (r: DirPath)
        ensures
            r@ == Seq::<Step>::empty(),
    {
        let r = DirPath(Vec::new());
        assert(r@ =~= Seq::<Step>::empty());
        r
    }

    /// Makes one move; see `cd_spec`.
    pub fn cd(&mut self, next: &NextDir, at_root: bool)
        ensures
            final(self)@ == cd_spec(old(self)@, next@, at_root),
    {
        let ghost before = self@;
        match next {
            NextDir::In(_) => {
                self.0.push(next.clone());
                assert(self@ =~= before.push(next@));
            },
            NextDir::Out => {
                if !at_root {
                    match self.0.pop() {
                        None => {
                            self.0.push(NextDir::Out);
                            assert(self@ =~= before.push(Step::Out));
                        },
                        Some(NextDir::Out) => {
                            self.0.push(NextDir::Out);
                            self.0.push(NextDir::Out);
                            assert(self@ =~= before.push(Step::Out));
                        },
                        Some(NextDir::In(_)) => {
                            assert(self@ =~= before.drop_last());
                        },
                    }
                } else {
                    if self.0.len() > 0 {
                        self.0.pop();
                        assert(self@ =~= before.drop_last());
                    }
                }
            },
        }
    }

    /// The path replayed from the root through `cd`.
    pub fn normalised(&self, at_root: bool) -> (r: DirPath)
        ensures
            r@ == normal_form(self@, at_root),
    {
        let mut out = DirPath::root();
        let mut i: usize = 0;
        while i < self.0.len()
            invariant
                i <= self.0.len(),
                out@ == replay(Seq::empty(), self@.subrange(0, i as int), at_root),
            decreases self.0.len() - i,
        {
            out.cd(&self.0[i], at_root);
            assert(self@.subrange(0, i + 1).drop_last() =~= self@.subrange(0, i as int));
            i += 1;
        }
        assert(self@.subrange(0, self@.len() as int) =~= self@);
        out
    }

    pub fn normalise(&mut self, at_root: bool)
        ensures
            final(self)@ == normal_form(old(self)@, at_root),
    {
        let n = self.normalised(at_root);
        *self = n;
    }

    /// The path rendered as text; ascents that remain show as `..`.
    pub fn to_string(&self) -> (r: String)
        ensures
            r@ == dir_text(self@),
    {
        if self.0.len() == 0 {
            let r = String::from_str("/");
            proof {
                reveal_strlit("/");
            }
            return r;
        }
        let mut result = String::new();
        let mut i: usize = 0;
        while i < self.0.len()
            invariant
                i <= self.0.len(),
                result@ == steps_text(self@.subrange(0, i as int)),
            decreases self.0.len() - i,
        {
            push_step_text(&mut result, &self.0[i]);
            assert(self@.subrange(0, i + 1).drop_last() =~= self@.subrange(0, i as int));
            i += 1;
        }
        assert(self@.subrange(0, self@.len() as int) =~= self@);
        result
    }

    /// The moves of `relative` replayed onto this path.
    pub fn concat(&self, relative: &DirPath, at_root: bool) -> (r: DirPath)
        ensures
            r@ == replay(self@, relative@, at_root),
    {
        let mut out = self.clone();
        let mut i: usize = 0;
        while i < relative.0.len()
            invariant
                i <= relative.0.len(),
                out@ == replay(self@, relative@.subrange(0, i as int), at_root),
            decreases relative.0.len() - i,
        {
            out.cd(&relative.0[i], at_root);
            assert(relative@.subrange(0, i + 1).drop_last() =~= relative@.subrange(0, i as int));
            i += 1;
        }
        assert(relative@.subrange(0, relative@.len() as int) =~= relative@);
        out
    }

    /// The directory named by `path`: from the root when it starts with a separator, else
    /// from `current_dir`.
    pub fn parse(path: &str, current_dir: &DirPath) -> (r: DirPath)
        ensures
            r@ == parse_dir_spec(path@, current_dir@),
    {
        let mut dir = if path.unicode_len() > 0 && path.get_char(0) == '/' {
            DirPath::root()
        } else {
            current_dir.clone()
        };
        walk_text(&mut dir, path);
        dir
    }

    /// The parent of a path whose last move is a descent.
    pub fn super_dir(&self) -> (r: Option<DirPath>)
        ensures
            r matches Some(d) ==> parent_spec(self@) == Some(d@),
            r is None ==> parent_spec(self@) is None,
    {
        let n = self.0.len();
        if n == 0 {
            return None;
        }
        match &self.0[n - 1] {
            NextDir::In(_) => {
                let mut d = self.clone();
                d.0.pop();
                assert(d@ =~= self@.drop_last());
                Some(d)
            },
            NextDir::Out => None,
        }
    }

    /// The name of the last move, when it is a descent.
    pub fn final_component(&self) -> (r: Option<&str>)
        ensures
            r matches Some(s) ==> last_name(self@) == Some(s@),
            r is None ==> last_name(self@) is None,
    {
        let n = self.0.len();
        if n == 0 {
            return None;
        }
        match &self.0[n - 1] {
            NextDir::In(name) => Some(name.as_str()),
            NextDir::Out => None,
        }
    }
}

/// A file: its containing directory and its name.
#[derive(Debug)]
pub struct FilePath {
    pub dir: DirPath,
    pub file: String,
}

impl View for FilePath {
    type V = (Seq<Step>, Seq<char>);

    open spec fn view(&self) -> (Seq<Step>, Seq<char>) {
        (self.dir@, self.file@)
    }
}

impl Clone for FilePath {
    fn clone(&self) -> (r: Self)
        ensures
            r@ == self@,
    {
        FilePath { dir: self.dir.clone(), file: self.file.clone() }
    }
}

impl PartialEq for FilePath {
    fn eq(&self, other: &FilePath) -> (r: bool) {
        self.dir == other.dir && self.file == other.file
    }
}

impl vstd::std_specs::cmp::PartialEqSpecImpl for FilePath {
    open spec fn obeys_eq_spec() -> bool {
        true
    }

    open spec fn eq_spec(&self, other: &FilePath) -> bool {
        self@ == other@
    }
}

/// The text of the directory `d` with leading separators removed.
fn trimmed_text(d: &str) -> (r: &str)
    ensures
        r@ == trim_slashes(d@),
{
    let n = d.unicode_len();
    let mut k: usize = 0;
    assert(d@.subrange(0, n as int) =~= d@);
    while k < n && d.get_char(k) == '/'
        invariant
            n == d@.len(),
            k <= n,
            trim_slashes(d@) == trim_slashes(d@.subrange(k as int, n as int)),
        decreases n - k,
    {
        assert(d@.subrange(k as int, n as int).drop_first() =~= d@.subrange(k + 1, n as int));
        k += 1;
    }
    assert(d@.subrange(0, n as int) =~= d@);
    d.substring_char(k, n)
}

proof fn lemma_last_slash_bounds(s: Seq<char>)
    ensures
        last_slash(s) matches Some(k) ==> 0 <= k < s.len() && s[k] == '/',
    decreases s.len(),
{
    if s.len() > 0 && s.last() != '/' {
        lemma_last_slash_bounds(s.drop_last());
    }
}

impl FilePath {
    pub fn new(dir: DirPath, file: String) -> (r: FilePath)
        ensures
            r@ == (dir@, file@),
    {
        FilePath { dir, file }
    }

    /// The file named by `path`: the name follows the last separator, and what precedes it
    /// names the directory (from the root when `path` starts with a separator, else from
    /// `current_dir`).
    pub fn parse(path: &str, current_dir: &DirPath) -> (r: FilePath)
        ensures
            r@ == parse_file_spec(path@, current_dir@),
    {
        let n = path.unicode_len();
        let mut last: Option<usize> = None;
        let mut i: usize = 0;
        while i < n
            invariant
                n == path@.len(),
                i <= n,
                last matches Some(k) ==> last_slash(path@.subrange(0, i as int)) == Some(k as int),
                last is None ==> last_slash(path@.subrange(0, i as int)) is None,
            decreases n - i,
        {
            assert(path@.subrange(0, i + 1).drop_last() =~= path@.subrange(0, i as int));
            if path.get_char(i) == '/' {
                last = Some(i);
            }
            i += 1;
        }
        assert(path@.subrange(0, n as int) =~= path@);
        proof {
            lemma_last_slash_bounds(path@);
        }
        match last {
            None => FilePath::new(current_dir.clone(), String::from_str(path)),
            Some(k) => {
                let file = String::from_str(path.substring_char(k + 1, n));
                let dir_part = path.substring_char(0, k);
                let mut dir = if path.get_char(0) == '/' {
                    DirPath::root()
                } else {
                    current_dir.clone()
                };
                walk_text(&mut dir, dir_part);
                FilePath::new(dir, file)
            },
        }
    }

    /// The full path as text, such as `/blog/post.md`.
    pub fn to_string(&self) -> (r: String)
        ensures
            r@ == file_text(self.dir@, self.file@),
    {
        let d = self.dir.to_string();
        proof {
            reveal_strlit("/");
            assert("/"@ =~= seq!['/']);
        }
        let slash = String::from_str("/");
        if d == slash {
            let mut r = slash;
            r.append(self.file.as_str());
            r
        } else {
            let mut r = d;
            r.append("/");
            r.append(self.file.as_str());
            r
        }
    }

    /// The URL under the content root from which the file is fetched.
    pub fn to_url(&self) -> (r: String)
        ensures
            r@ == url_text(self.dir@, self.file@),
    {
        let d = self.dir.to_string();
        proof {
            reveal_strlit("/");
            assert("/"@ =~= seq!['/']);
        }
        let slash = String::from_str("/");
        let mut r = String::from_str("./content/");
        if d != slash {
            r.append(trimmed_text(d.as_str()));
            r.append("/");
        }
        r.append(self.file.as_str());
        assert(r@ =~= url_text(self.dir@, self.file@));
        r
    }
}

// ---- Laws of the path algebra ----

proof fn lemma_replay_keeps_all_in(base: Seq<Step>, moves: Seq<Step>)
    requires
        all_in(base),
    ensures
        all_in(replay(base, moves, true)),
    decreases moves.len(),
{
    if moves.len() > 0 {
        lemma_replay_keeps_all_in(base, moves.drop_last());
        let p = replay(base, moves.drop_last(), true);
        let q = replay(base, moves, true);
        assert forall|i: int| 0 <= i < q.len() implies #[trigger] q[i] is In by {
            if i < p.len() {
                assert(q[i] == p[i]);
            }
        }
    }
}

proof fn lemma_replay_all_in_from_root(p: Seq<Step>, clamp: bool)
    requires
        all_in(p),
    ensures
        replay(Seq::empty(), p, clamp) == p,
    decreases p.len(),
{
    if p.len() > 0 {
        assert(all_in(p.drop_last()));
        lemma_replay_all_in_from_root(p.drop_last(), clamp);
        assert(p[p.len() - 1] is In);
        assert(p.drop_last().push(p.last()) =~= p);
    }
}

/// A path of descents walked by pieces of text still holds only descents.
pub proof fn lemma_walk_keeps_all_in(p: Seq<Step>, segs: Seq<Seq<char>>)
    requires
        all_in(p),
    ensures
        all_in(walk(p, segs)),
    decreases segs.len(),
{
    if segs.len() > 0 {
        lemma_walk_keeps_all_in(p, segs.drop_last());
        let q = walk(p, segs.drop_last());
        let r = walk(p, segs);
        assert forall|i: int| 0 <= i < r.len() implies #[trigger] r[i] is In by {
            if i < q.len() {
                assert(r[i] == q[i]);
            }
        }
    }
}

/// Normalising with the clamp at the root leaves only descents, so normalising again
/// changes nothing.
pub proof fn lemma_normalised_idempotent(s: Seq<Step>)
    ensures
        all_in(normal_form(s, true)),
        normal_form(normal_form(s, true), true) == normal_form(s, true),
{
    lemma_replay_keeps_all_in(Seq::empty(), s);
    lemma_replay_all_in_from_root(normal_form(s, true), true);
}

proof fn lemma_steps_text_concat(a: Seq<Step>, b: Seq<Step>)
    ensures
        steps_text(a + b) == steps_text(a) + steps_text(b),
    decreases b.len(),
{
    if b.len() == 0 {
        assert(a + b =~= a);
    } else {
        lemma_steps_text_concat(a, b.drop_last());
        assert((a + b).drop_last() =~= a + b.drop_last());
        assert((a + b).last() == b.last());
    }
}

/// Ascending from the root, or from a path that is already above the root: with the clamp
/// the root stays the root; without it the path gains one leading ascent, and its rendering
/// one leading `/..`.
pub proof fn lemma_ascend_at_root(p: Seq<Step>)
    requires
        all_out(p),
    ensures
        cd_spec(Seq::empty(), Step::Out, true) == Seq::<Step>::empty(),
        cd_spec(p, Step::Out, false) == seq![Step::Out] + p,
        dir_text(cd_spec(p, Step::Out, false)) == seq!['/', '.', '.'] + steps_text(p),
{
    let q = cd_spec(p, Step::Out, false);
    if p.len() > 0 {
        assert(p[p.len() - 1] is Out);
    }
    assert(q =~= seq![Step::Out] + p);
    lemma_steps_text_concat(seq![Step::Out], p);
    assert(seq![Step::Out].drop_last() =~= Seq::<Step>::empty());
    assert(steps_text(Seq::<Step>::empty()) == Seq::<char>::empty());
    assert(seq![Step::Out].last() == Step::Out);
    assert(Seq::<char>::empty() + seq!['/', '.', '.'] =~= seq!['/', '.', '.']);
    assert(steps_text(seq![Step::Out]) =~= seq!['/', '.', '.']);
}

/// Descents replayed onto `base` are appended to it.
pub proof fn lemma_replay_descents(base: Seq<Step>, moves: Seq<Step>, clamp: bool)
    requires
        all_in(moves),
    ensures
        replay(base, moves, clamp) == base + moves,
    decreases moves.len(),
{
    if moves.len() > 0 {
        assert(all_in(moves.drop_last()));
        lemma_replay_descents(base, moves.drop_last(), clamp);
        assert(moves[moves.len() - 1] is In);
        assert((base + moves.drop_last()).push(moves.last()) =~= base + moves);
    }
}

/// Replaying `a` and then `b` is replaying `a + b`.
pub proof fn lemma_replay_concat(base: Seq<Step>, a: Seq<Step>, b: Seq<Step>, clamp: bool)
    ensures
        replay(base, a + b, clamp) == replay(replay(base, a, clamp), b, clamp),
    decreases b.len(),
{
    if b.len() == 0 {
        assert(a + b =~= a);
    } else {
        lemma_replay_concat(base, a, b.drop_last(), clamp);
        assert((a + b).drop_last() =~= a + b.drop_last());
    }
}

/// Concatenation applies the relative path's moves one by one through `cd`: each prefix one
/// move longer is one more `cd`, and its rendering follows. On a base without ascents, a
/// clamped concatenation is the normal form of the two move sequences joined.
pub proof fn lemma_concat_is_stepwise(base: Seq<Step>, relative: Seq<Step>, k: int)
    requires
        0 <= k < relative.len(),
    ensures
        replay(base, relative.subrange(0, k + 1), true)
            == cd_spec(replay(base, relative.subrange(0, k), true), relative[k], true),
        dir_text(replay(base, relative.subrange(0, k + 1), true))
            == dir_text(cd_spec(replay(base, relative.subrange(0, k), true), relative[k], true)),
        replay(base, relative.subrange(0, 0), true) == base,
        all_in(base) ==> replay(base, relative, true) == normal_form(base + relative, true),
{
    assert(relative.subrange(0, k + 1).drop_last() =~= relative.subrange(0, k));
    assert(relative.subrange(0, 0) =~= Seq::<Step>::empty());
    if all_in(base) {
        lemma_replay_concat(Seq::empty(), base, relative, true);
        lemma_replay_all_in_from_root(base, true);
    }
}

} // verus!
