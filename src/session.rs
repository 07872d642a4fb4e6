use vstd::prelude::*;

use crate::eager::{files_in, resident_entries, Tree, VirtualFilesystem};
use crate::numbers::{decimal, decimal_text, digit_char};
use crate::path::{parse_file_spec, DirPath, FilePath, Step};
use crate::store::{pair_views, ContentView};

verus! {

/// The only session format version.
pub const SESSION_VERSION: &'static str = "1.0";

pub open spec fn hex_digit(d: int) -> char {
    if d < 10 {
        digit_char(d as nat)
    } else if d == 10 {
        'a'
    } else if d == 11 {
        'b'
    } else if d == 12 {
        'c'
    } else if d == 13 {
        'd'
    } else if d == 14 {
        'e'
    } else {
        'f'
    }
}

/// One character inside a JSON string literal: the quote and the backslash escaped, the
/// control characters as their short escape or as `\u00` and two hex digits, any other as
/// it is.
pub open spec fn escaped_char(c: char) -> Seq<char> {
    if c == '"' {
        seq!['\\', '"']
    } else if c == '\\' {
        seq!['\\', '\\']
    } else if c == '\u{8}' {
        seq!['\\', 'b']
    } else if c == '\t' {
        seq!['\\', 't']
    } else if c == '\n' {
        seq!['\\', 'n']
    } else if c == '\u{c}' {
        seq!['\\', 'f']
    } else if c == '\r' {
        seq!['\\', 'r']
    } else if (c as int) < 0x20 {
        seq!['\\', 'u', '0', '0', hex_digit(c as int / 16), hex_digit(c as int % 16)]
    } else {
        seq![c]
    }
}

pub open spec fn escaped(s: Seq<char>) -> Seq<char>
    decreases s.len(),
{
    if s.len() == 0 {
        Seq::empty()
    } else {
        escaped(s.drop_last()) + escaped_char(s.last())
    }
}

/// The JSON string literal of `s`.
pub open spec fn json_quoted(s: Seq<char>) -> Seq<char> {
    seq!['"'] + escaped(s) + seq!['"']
}

/// Relies on `serde_json::to_string` on a `str`: a quote, each character escaped as
/// `escaped_char` says, a quote. A `str` always serialises.
#[verifier::external_body]
fn quote_json(s: &str) -> (r: String)
    ensures
        r@ == json_quoted(s@),
{
    serde_json::to_string(s).unwrap_or_default()
}

/// A member of a JSON object: text, an object (each of its members with its text when it
/// is a string), or anything else.
pub enum JsonMember {
    Text(String),
    TextObject(Vec<(String, Option<String>)>),
    Other,
}

pub enum MemberView {
    Text(Seq<char>),
    TextObject(Seq<(Seq<char>, Option<Seq<char>>)>),
    Other,
}

impl View for JsonMember {
    type V = MemberView;

    open spec fn view(&self) -> MemberView {
        match self {
            JsonMember::Text(t) => MemberView::Text(t@),
            JsonMember::TextObject(es) => MemberView::TextObject(member_views(es@)),
            JsonMember::Other => MemberView::Other,
        }
    }
}

pub type JsonDoc = Result<Option<Vec<(String, JsonMember)>>, String>;

pub type DocView = Result<Option<Seq<(Seq<char>, MemberView)>>, Seq<char>>;

pub open spec fn doc_view(d: JsonDoc) -> DocView {
    match d {
        Err(e) => Err(e@),
        Ok(None) => Ok(None),
        Ok(Some(ms)) => Ok(Some(ms@.map_values(|m: (String, JsonMember)| (m.0@, m.1@)))),
    }
}

/// What a JSON text decodes to: the parser's message when it is not JSON; `None` when it is
/// not an object; else the object's members in order.
pub uninterp spec fn decoded_json(text: Seq<char>) -> DocView;

/// Relies on `serde_json::from_str` into a `serde_json::Value` and its `as_object`, each
/// member told apart by its variant; the parser's message through `Display`. The result
/// depends on the text alone.
#[verifier::external_body]
fn decode_json(text: &str) -> (r: JsonDoc)
    ensures
        doc_view(r) == decoded_json(text@),
{
    let v: serde_json::Value = serde_json::from_str(text).map_err(|e| e.to_string())?;
    Ok(v.as_object().map(|m| {
        m.iter().map(|(k, x)| {
            let member = match x {
                serde_json::Value::String(t) => JsonMember::Text(t.clone()),
                serde_json::Value::Object(o) => JsonMember::TextObject(
                    o.iter().map(|(a, b)| (a.clone(), b.as_str().map(|t| t.to_string()))).collect(),
                ),
                _ => JsonMember::Other,
            };
            (k.clone(), member)
        }).collect()
    }))
}

/// The first member of `ms` named `key`.
pub open spec fn member_named(ms: Seq<(Seq<char>, MemberView)>, key: Seq<char>) -> Option<MemberView>
    decreases ms.len(),
{
    if ms.len() == 0 {
        None
    } else if ms[0].0 == key {
        Some(ms[0].1)
    } else {
        member_named(ms.drop_first(), key)
    }
}

/// What a session reads of a decoded document: its `version` when that is text, and its
/// `files` when that is an object.
pub open spec fn session_of(d: DocView) -> Result<(Option<Seq<char>>, Option<Seq<(Seq<char>, Option<Seq<char>>)>>), Seq<char>> {
    match d {
        Err(e) => Err(e),
        Ok(None) => Ok((None, None)),
        Ok(Some(ms)) => Ok((
            match member_named(ms, "version"@) {
                Some(MemberView::Text(t)) => Some(t),
                _ => None,
            },
            match member_named(ms, "files"@) {
                Some(MemberView::TextObject(es)) => Some(es),
                _ => None,
            },
        )),
    }
}

pub type Decoded = Result<(Option<String>, Option<Vec<(String, Option<String>)>>), String>;

pub open spec fn text_option(o: Option<String>) -> Option<Seq<char>> {
    match o {
        Some(t) => Some(t@),
        None => None,
    }
}

pub open spec fn decoded_view(d: Decoded) -> Result<(Option<Seq<char>>, Option<Seq<(Seq<char>, Option<Seq<char>>)>>), Seq<char>> {
    match d {
        Ok((v, f)) => Ok((
            text_option(v),
            match f {
                Some(es) => Some(member_views(es@)),
                None => None,
            },
        )),
        Err(m) => Err(m@),
    }
}

/// The position of the first member named `key`.
fn find_member(ms: &Vec<(String, JsonMember)>, key: &String) -> (r: Option<usize>)
    ensures
        ({
            let mv = ms@.map_values(|m: (String, JsonMember)| (m.0@, m.1@));
            &&& r matches Some(i) ==> i < ms@.len() && member_named(mv, key@) == Some(mv[i as int].1)
            &&& r is None ==> member_named(mv, key@) is None
        }),
{
    let ghost mv = ms@.map_values(|m: (String, JsonMember)| (m.0@, m.1@));
    let mut i: usize = 0;
    assert(mv.subrange(0, mv.len() as int) =~= mv);
    while i < ms.len()
        invariant
            i <= ms.len(),
            mv == ms@.map_values(|m: (String, JsonMember)| (m.0@, m.1@)),
            member_named(mv, key@) == member_named(mv.subrange(i as int, mv.len() as int), key@),
        decreases ms.len() - i,
    {
        let ghost rest = mv.subrange(i as int, mv.len() as int);
        assert(rest[0] == mv[i as int]);
        if ms[i].0 == *key {
            return Some(i);
        }
        assert(rest.drop_first() =~= mv.subrange(i + 1, mv.len() as int));
        i += 1;
    }
    None
}

fn copy_members(es: &Vec<(String, Option<String>)>) -> (r: Vec<(String, Option<String>)>)
    ensures
        member_views(r@) == member_views(es@),
{
    let mut out: Vec<(String, Option<String>)> = Vec::new();
    let mut i: usize = 0;
    while i < es.len()
        invariant
            i <= es.len(),
            member_views(out@) =~= member_views(es@).subrange(0, i as int),
        decreases es.len() - i,
    {
        let ghost before = out@;
        let text = match &es[i].1 {
            Some(t) => Some(t.clone()),
            None => None,
        };
        let entry = (es[i].0.clone(), text);
        assert(member_views(seq![entry])[0] == member_views(es@)[i as int]);
        out.push(entry);
        assert(member_views(out@) =~= member_views(before).push(member_views(es@)[i as int]));
        assert(member_views(es@).subrange(0, i + 1) =~= member_views(es@).subrange(0, i as int).push(member_views(es@)[i as int]));
        i += 1;
    }
    assert(member_views(es@).subrange(0, es@.len() as int) =~= member_views(es@));
    out
}

/// The session fields of a decoded document; see `session_of`.
pub fn session_fields(doc: JsonDoc) -> (r: Decoded)
    ensures
        decoded_view(r) == session_of(doc_view(doc)),
{
    let ms = match doc {
        Err(e) => return Err(e),
        Ok(None) => return Ok((None, None)),
        Ok(Some(ms)) => ms,
    };
    proof {
        reveal_strlit("version");
        reveal_strlit("files");
    }
    let version = match find_member(&ms, &String::from_str("version")) {
        Some(i) => match &ms[i].1 {
            JsonMember::Text(t) => Some(t.clone()),
            _ => None,
        },
        None => None,
    };
    let files = match find_member(&ms, &String::from_str("files")) {
        Some(i) => match &ms[i].1 {
            JsonMember::TextObject(es) => Some(copy_members(es)),
            _ => None,
        },
        None => None,
    };
    Ok((version, files))
}

/// The members of the `files` object: path and content, each as its JSON string literal.
pub open spec fn entries_json(es: Seq<(Seq<char>, Seq<char>)>) -> Seq<char>
    decreases es.len(),
{
    if es.len() == 0 {
        Seq::empty()
    } else {
        let item = json_quoted(es.last().0) + seq![':'] + json_quoted(es.last().1);
        if es.len() == 1 {
            item
        } else {
            entries_json(es.drop_last()) + seq![','] + item
        }
    }
}

/// `{"version":<version>,"files":{<entries>}}`.
pub open spec fn session_json(version: Seq<char>, es: Seq<(Seq<char>, Seq<char>)>) -> Seq<char> {
    "{\"version\":"@ + json_quoted(version) + ",\"files\":{"@ + entries_json(es) + "}}"@
}

/// The session text for the given files: path and content of each.
pub fn session_text(entries: &Vec<(String, String)>) -> (r: String)
    ensures
        r@ == session_json(SESSION_VERSION@, pair_views(entries@)),
{
    let ghost es = pair_views(entries@);
    let mut body = String::new();
    proof {
        reveal_strlit(",");
        reveal_strlit(":");
        assert(","@ =~= seq![',']);
        assert(":"@ =~= seq![':']);
        assert(es.subrange(0, 0) =~= Seq::<(Seq<char>, Seq<char>)>::empty());
    }
    let mut i: usize = 0;
    while i < entries.len()
        invariant
            i <= entries.len(),
            es == pair_views(entries@),
            ","@ == seq![','],
            ":"@ == seq![':'],
            body@ == entries_json(es.subrange(0, i as int)),
        decreases entries.len() - i,
    {
        if i > 0 {
            body.append(",");
        }
        body.append(quote_json(entries[i].0.as_str()).as_str());
        body.append(":");
        body.append(quote_json(entries[i].1.as_str()).as_str());
        proof {
            assert(es.subrange(0, i + 1).drop_last() =~= es.subrange(0, i as int));
            if i == 0 {
                assert(Seq::<char>::empty() + json_quoted(es[0].0) =~= json_quoted(es[0].0));
            }
        }
        assert(body@ =~= entries_json(es.subrange(0, i + 1)));
        i += 1;
    }
    assert(es.subrange(0, es.len() as int) =~= es);
    let mut r = String::from_str("{\"version\":");
    r.append(quote_json(SESSION_VERSION).as_str());
    r.append(",\"files\":{");
    r.append(body.as_str());
    r.append("}}");
    r
}

/// No two entries share a path.
pub open spec fn distinct_paths(es: Seq<(Seq<char>, Seq<char>)>) -> bool {
    forall|i: int, j: int| 0 <= i < j < es.len() ==> (#[trigger] es[i]).0 != (#[trigger] es[j]).0
}

/// The entries keeping the first of each path, in their order.
fn first_per_path(v: &Vec<(String, String)>) -> (r: Vec<(String, String)>)
    ensures
        distinct_paths(pair_views(r@)),
        forall|e: (Seq<char>, Seq<char>)| #[trigger] pair_views(r@).contains(e) ==> pair_views(v@).contains(e),
        forall|e: (Seq<char>, Seq<char>)| #[trigger] pair_views(v@).contains(e) ==> exists|f: (Seq<char>, Seq<char>)|
            #[trigger] pair_views(r@).contains(f) && f.0 == e.0,
{
    let ghost pv = pair_views(v@);
    let mut out: Vec<(String, String)> = Vec::new();
    let mut i: usize = 0;
    while i < v.len()
        invariant
            i <= v.len(),
            pv == pair_views(v@),
            distinct_paths(pair_views(out@)),
            forall|e: (Seq<char>, Seq<char>)| #[trigger] pair_views(out@).contains(e) ==> pv.contains(e),
            forall|k: int| 0 <= k < i ==> exists|q: int| 0 <= q < pair_views(out@).len() && #[trigger] pair_views(out@)[q].0 == (#[trigger] pv[k]).0,
        decreases v.len() - i,
    {
        let ghost before = pair_views(out@);
        assert(pv[i as int] == (v@[i as int].0@, v@[i as int].1@));
        let mut found = false;
        let mut k: usize = 0;
        while k < out.len()
            invariant
                k <= out.len(),
                before == pair_views(out@),
                i < v.len(),
                pv == pair_views(v@),
                found == (exists|q: int| 0 <= q < k && #[trigger] before[q].0 == pv[i as int].0),
            decreases out.len() - k,
        {
            assert(before[k as int] == (out@[k as int].0@, out@[k as int].1@));
            let ghost was = found;
            if out[k].0 == v[i].0 {
                found = true;
            }
            proof {
                if found && !was {
                    assert(0 <= k < k + 1 && before[k as int].0 == pv[i as int].0);
                }
                if !found {
                    assert forall|q: int| 0 <= q < k + 1 implies #[trigger] before[q].0 != pv[i as int].0 by {
                        if q < k {
                            assert(!(0 <= q < k && before[q].0 == pv[i as int].0) || was);
                        }
                    }
                }
            }
            k += 1;
        }
        if !found {
            out.push((v[i].0.clone(), v[i].1.clone()));
            assert(pair_views(out@) =~= before.push(pv[i as int]));
            proof {
                assert forall|a: int, b: int| 0 <= a < b < pair_views(out@).len() implies (#[trigger] pair_views(out@)[a]).0
                    != (#[trigger] pair_views(out@)[b]).0 by {
                    if b < before.len() {
                        assert(before[a] == pair_views(out@)[a] && before[b] == pair_views(out@)[b]);
                    } else {
                        assert(before[a] == pair_views(out@)[a]);
                    }
                }
            }
        }
        proof {
            let now = pair_views(out@);
            assert forall|e: (Seq<char>, Seq<char>)| #[trigger] now.contains(e) implies pv.contains(e) by {
                let q = choose|q: int| 0 <= q < now.len() && now[q] == e;
                if q < before.len() {
                    assert(before[q] == e);
                    assert(before.contains(e));
                } else {
                    assert(pv[i as int] == e);
                }
            }
            assert forall|k2: int| 0 <= k2 < i + 1 implies exists|q: int| 0 <= q < now.len() && #[trigger] now[q].0 == (#[trigger] pv[k2]).0 by {
                if k2 < i {
                    let q = choose|q: int| 0 <= q < before.len() && #[trigger] before[q].0 == (#[trigger] pv[k2]).0;
                    assert(now[q] == before[q]);
                    assert(0 <= q < now.len() && now[q].0 == pv[k2].0);
                } else if found {
                    let q = choose|q: int| 0 <= q < before.len() && #[trigger] before[q].0 == pv[i as int].0;
                    assert(now[q] == before[q]);
                    assert(0 <= q < now.len() && now[q].0 == pv[k2].0);
                } else {
                    let q = before.len() as int;
                    assert(now[q] == pv[i as int]);
                    assert(0 <= q < now.len() && now[q].0 == pv[k2].0);
                }
            }
        }
        i += 1;
    }
    proof {
        let now = pair_views(out@);
        assert forall|e: (Seq<char>, Seq<char>)| #[trigger] pv.contains(e) implies exists|f: (Seq<char>, Seq<char>)|
            #[trigger] now.contains(f) && f.0 == e.0 by {
            let k2 = choose|k2: int| 0 <= k2 < pv.len() && pv[k2] == e;
            let q = choose|q: int| 0 <= q < now.len() && #[trigger] now[q].0 == (#[trigger] pv[k2]).0;
            assert(now.contains(now[q]));
        }
    }
    out
}

/// The session of the eager store's resident files: each path once, with the text of a
/// resident file of that path, and every resident file's path present.
pub fn export_session(vfs: &VirtualFilesystem) -> (r: String)
    requires
        vfs.wf(),
    ensures
        exists|es: Seq<(Seq<char>, Seq<char>)>| {
            &&& distinct_paths(es)
            &&& forall|e: (Seq<char>, Seq<char>)| #[trigger] es.contains(e) ==> resident_entries(vfs@).contains(e)
            &&& forall|e: (Seq<char>, Seq<char>)| #[trigger] resident_entries(vfs@).contains(e) ==> exists|f: (Seq<char>, Seq<char>)|
                #[trigger] es.contains(f) && f.0 == e.0
            &&& r@ == session_json(SESSION_VERSION@, es)
        },
{
    let all = vfs.resident_entries();
    let entries = first_per_path(&all);
    proof {
        let av = pair_views(all@);
        assert forall|e: (Seq<char>, Seq<char>)| #[trigger] pair_views(entries@).contains(e) implies resident_entries(vfs@).contains(e) by {
            assert(av.to_set().contains(e));
        }
        assert forall|e: (Seq<char>, Seq<char>)| #[trigger] resident_entries(vfs@).contains(e) implies exists|f: (Seq<char>, Seq<char>)|
            #[trigger] pair_views(entries@).contains(f) && f.0 == e.0 by {
            assert(av.to_set().contains(e));
            assert(av.contains(e));
        }
    }
    session_text(&entries)
}

/// Why a session was not imported.
#[derive(Debug)]
pub enum ImportError {
    Parse(String),
    MissingVersion,
    UnsupportedVersion(String),
    InvalidFiles,
}

impl ImportError {
    /// The message reported for the error.
    pub fn message(&self) -> (r: String)
        ensures
            match self {
                ImportError::Parse(e) => r@ == "Error: Failed to parse session file: "@ + e@,
                ImportError::MissingVersion => r@ == "Error: Invalid session file: missing version"@,
                ImportError::UnsupportedVersion(v) => r@ == "Error: Unsupported session version: "@ + v@,
                ImportError::InvalidFiles => r@ == "Error: Invalid session file: missing or invalid files"@,
            },
    {
        match self {
            ImportError::Parse(e) => {
                let mut r = String::from_str("Error: Failed to parse session file: ");
                r.append(e.as_str());
                r
            },
            ImportError::MissingVersion => String::from_str("Error: Invalid session file: missing version"),
            ImportError::UnsupportedVersion(v) => {
                let mut r = String::from_str("Error: Unsupported session version: ");
                r.append(v.as_str());
                r
            },
            ImportError::InvalidFiles => String::from_str("Error: Invalid session file: missing or invalid files"),
        }
    }
}

/// The store after importing the members of a session's `files`: each one whose content is
/// text is written, in order, at its path parsed from the root.
pub open spec fn import_writes(m: Tree, es: Seq<(Seq<char>, Option<Seq<char>>)>) -> Tree
    decreases es.len(),
{
    if es.len() == 0 {
        m
    } else {
        let m1 = import_writes(m, es.drop_last());
        match es.last().1 {
            Some(t) => {
                let (d, n) = parse_file_spec(es.last().0, Seq::empty());
                m1.insert(d, files_in(m1, d).insert(n, ContentView::Resident(t)))
            },
            None => m1,
        }
    }
}

/// How many members have text as content.
pub open spec fn text_count(es: Seq<(Seq<char>, Option<Seq<char>>)>) -> nat
    decreases es.len(),
{
    if es.len() == 0 {
        0
    } else {
        text_count(es.drop_last()) + if es.last().1 is Some {
            1nat
        } else {
            0nat
        }
    }
}

pub open spec fn member_views(v: Seq<(String, Option<String>)>) -> Seq<(Seq<char>, Option<Seq<char>>)> {
    v.map_values(|e: (String, Option<String>)| (e.0@, match e.1 { Some(t) => Some(t@), None => None }))
}

/// Imports a session given its `version` and the members of its `files` object (path, and
/// content when it is text). A version other than the supported one, or a missing `files`,
/// rejects the whole session and writes nothing.
pub fn import_entries(
    vfs: &mut VirtualFilesystem,
    version: Option<String>,
    files: Option<Vec<(String, Option<String>)>>,
) -> (r: Result<usize, ImportError>)
    requires
        old(vfs).wf(),
    ensures
        final(vfs).wf(),
        version is None ==> final(vfs)@ == old(vfs)@ && r matches Err(ImportError::MissingVersion),
        version matches Some(v) && v@ != SESSION_VERSION@ ==> final(vfs)@ == old(vfs)@,
        version matches Some(v) && v@ != SESSION_VERSION@ ==> (r matches Err(ImportError::UnsupportedVersion(w)) && w@ == version->0@),
        version matches Some(v) && v@ == SESSION_VERSION@ && files is None ==> final(vfs)@ == old(vfs)@ && r matches Err(ImportError::InvalidFiles),
        version matches Some(v) && v@ == SESSION_VERSION@ && files is Some ==> final(vfs)@ == import_writes(old(vfs)@, member_views(files->0@))
            && r == Ok::<usize, ImportError>(text_count(member_views(files->0@)) as usize),
{
    let v = match version {
        None => return Err(ImportError::MissingVersion),
        Some(v) => v,
    };
    if v != String::from_str(SESSION_VERSION) {
        return Err(ImportError::UnsupportedVersion(v));
    }
    let es = match files {
        None => return Err(ImportError::InvalidFiles),
        Some(es) => es,
    };
    let ghost mv = member_views(es@);
    let ghost start = vfs@;
    let root = DirPath::root();
    let mut count: usize = 0;
    let mut i: usize = 0;
    assert(mv.subrange(0, 0) =~= Seq::<(Seq<char>, Option<Seq<char>>)>::empty());
    while i < es.len()
        invariant
            i <= es.len(),
            mv == member_views(es@),
            root@ == Seq::<Step>::empty(),
            vfs.wf(),
            count <= i,
            count == text_count(mv.subrange(0, i as int)),
            vfs@ == import_writes(start, mv.subrange(0, i as int)),
        decreases es.len() - i,
    {
        assert(mv.subrange(0, i + 1).drop_last() =~= mv.subrange(0, i as int));
        match &es[i].1 {
            Some(text) => {
                let fp = FilePath::parse(es[i].0.as_str(), &root);
                vfs.write_file(&fp, text.clone());
                count += 1;
            },
            None => {},
        }
        i += 1;
    }
    assert(mv.subrange(0, mv.len() as int) =~= mv);
    Ok(count)
}

/// The message reporting an import of `n` files.
pub fn imported_message(n: usize) -> (r: String)
    ensures
        r@ == "Imported "@ + decimal(n as nat) + " file(s)"@,
{
    let mut r = String::from_str("Imported ");
    r.append(decimal_text(n as u64).as_str());
    r.append(" file(s)");
    r
}

/// The store and the message after importing a decoded session: a parse error, a missing or
/// unsupported version, or missing `files` leave the store as it is and are reported;
/// otherwise every member with text is written and counted.
pub open spec fn import_outcome(
    m: Tree,
    d: Result<(Option<Seq<char>>, Option<Seq<(Seq<char>, Option<Seq<char>>)>>), Seq<char>>,
) -> (Tree, Seq<char>) {
    match d {
        Err(e) => (m, "Error: Failed to parse session file: "@ + e),
        Ok((None, _)) => (m, "Error: Invalid session file: missing version"@),
        Ok((Some(v), files)) => if v != SESSION_VERSION@ {
            (m, "Error: Unsupported session version: "@ + v)
        } else {
            match files {
                None => (m, "Error: Invalid session file: missing or invalid files"@),
                Some(es) => (import_writes(m, es), "Imported "@ + decimal(text_count(es)) + " file(s)"@),
            }
        },
    }
}

proof fn lemma_text_count_bound(es: Seq<(Seq<char>, Option<Seq<char>>)>)
    ensures
        text_count(es) <= es.len(),
    decreases es.len(),
{
    if es.len() > 0 {
        lemma_text_count_bound(es.drop_last());
    }
}

/// Imports a decoded session and reports the outcome; see `import_outcome`.
pub fn import_decoded(vfs: &mut VirtualFilesystem, decoded: Decoded) -> (r: String)
    requires
        old(vfs).wf(),
    ensures
        final(vfs).wf(),
        (final(vfs)@, r@) == import_outcome(old(vfs)@, decoded_view(decoded)),
{
    match decoded {
        Err(e) => ImportError::Parse(e).message(),
        Ok((version, files)) => {
            let ghost fv = if files is Some {
                member_views(files->0@)
            } else {
                Seq::empty()
            };
            let members: usize = match &files {
                Some(es) => es.len(),
                None => 0,
            };
            assert(fv.len() == members);
            proof {
                lemma_text_count_bound(fv);
            }
            let result = import_entries(vfs, version, files);
            match result {
                Ok(n) => {
                    imported_message(n)
                },
                Err(e) => e.message(),
            }
        },
    }
}

/// Imports a session from its JSON text and reports the outcome; see `import_outcome`.
pub fn import_session(vfs: &mut VirtualFilesystem, session_json: &str) -> (r: String)
    requires
        old(vfs).wf(),
    ensures
        final(vfs).wf(),
        (final(vfs)@, r@) == import_outcome(old(vfs)@, session_of(decoded_json(session_json@))),
{
    import_decoded(vfs, session_fields(decode_json(session_json)))
}

} // verus!
