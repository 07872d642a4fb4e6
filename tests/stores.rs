use shellfs::commands::{fibonacci, Echo, Fib, Hello, Help};
use shellfs::dice::{build_cave_of_dice, is_dice_file_name, roll_message};
use shellfs::eager::{FileEntry, Manifest, VirtualFilesystem};
use shellfs::facade::{dir_exists_in, list_directory, path_in_abyss, Reading, Resolver};
use shellfs::history::InputHistory;
use shellfs::overlay::AbyssFileSystem;
use shellfs::path::{DirPath, FilePath, NextDir};
use shellfs::numbers::{decimal_text, parse_decimal, parse_u32, parse_u8};
use shellfs::session::{export_session, import_decoded, import_session};
use shellfs::store::{Content, Contents, Directories};

fn dir(parts: &[&str]) -> DirPath {
    DirPath(parts.iter().map(|p| NextDir::In(p.to_string())).collect())
}

fn file(parts: &[&str], name: &str) -> FilePath {
    FilePath::new(dir(parts), name.to_string())
}

fn resident(c: Option<&Content>) -> Option<String> {
    match c {
        Some(Content::InMemory(t)) => Some(t.clone()),
        _ => None,
    }
}

#[test]
fn parse_resolves_up_moves_from_any_directory() {
    for cwd in [DirPath::root(), dir(&["x", "y"])] {
        let fp = FilePath::parse("/a/../b/c.txt", &cwd);
        assert_eq!(fp.dir.to_string(), "/b");
        assert_eq!(fp.file, "c.txt");
    }
}

#[test]
fn parse_relative_and_bare_names() {
    let cwd = dir(&["home", "me"]);
    let fp = FilePath::parse("notes.txt", &cwd);
    assert_eq!(fp.to_string(), "/home/me/notes.txt");
    let fp = FilePath::parse("../docs/./a.md", &cwd);
    assert_eq!(fp.to_string(), "/home/docs/a.md");
    let d = DirPath::parse("../../..", &cwd);
    assert_eq!(d.to_string(), "/");
    let d = DirPath::parse("//x///y/", &cwd);
    assert_eq!(d.to_string(), "/x/y");
}

#[test]
fn file_urls_follow_the_directory() {
    assert_eq!(file(&["docs"], "note.txt").to_url(), "./content/docs/note.txt");
    assert_eq!(file(&[], "help.txt").to_url(), "./content/help.txt");
    assert_eq!(file(&[], "help.txt").to_string(), "/help.txt");
}

#[test]
fn normalising_twice_changes_nothing() {
    let p = DirPath(vec![
        NextDir::Out,
        NextDir::In("a".to_string()),
        NextDir::Out,
        NextDir::Out,
        NextDir::In("b".to_string()),
        NextDir::In("c".to_string()),
        NextDir::Out,
    ]);
    let once = p.normalised(true);
    assert_eq!(once.to_string(), "/b");
    assert_eq!(once.normalised(true).to_string(), once.to_string());
    let mut q = p.clone();
    q.normalise(false);
    assert_eq!(q.to_string(), "/../../b");
    assert_eq!(q.normalised(false).to_string(), "/../../b");
}

#[test]
fn ascending_at_the_root() {
    let mut p = DirPath::root();
    p.cd(&NextDir::Out, true);
    assert_eq!(p.to_string(), "/");
    p.cd(&NextDir::Out, false);
    assert_eq!(p.to_string(), "/..");
    p.cd(&NextDir::Out, false);
    assert_eq!(p.to_string(), "/../..");
}

#[test]
fn concat_is_one_cd_per_move() {
    let base = dir(&["a", "b"]);
    let rel = DirPath(vec![NextDir::Out, NextDir::In("c".to_string()), NextDir::Out, NextDir::Out, NextDir::Out]);
    let mut stepwise = base.clone();
    for m in &rel.0 {
        stepwise.cd(m, true);
    }
    assert_eq!(base.concat(&rel, true).to_string(), stepwise.to_string());
    assert_eq!(stepwise.to_string(), "/");
}

#[test]
fn parent_and_last_name() {
    let p = dir(&["a", "b"]);
    assert_eq!(p.super_dir().unwrap().to_string(), "/a");
    assert_eq!(p.final_component(), Some("b"));
    assert!(DirPath::root().super_dir().is_none());
    assert!(DirPath(vec![NextDir::Out]).final_component().is_none());
}

#[test]
fn eager_directory_removal_needs_an_empty_directory() {
    let mut fs = VirtualFilesystem::new();
    fs.create_dir(dir(&["docs"]));
    fs.write_file(&file(&["docs"], "note.txt"), "hi".to_string());
    assert_eq!(fs.remove_dir(&dir(&["docs"])), Err("Directory not empty".to_string()));
    assert!(fs.dir_exists(&dir(&["docs"])));
    assert!(fs.remove_file(&file(&["docs"], "note.txt")));
    assert_eq!(fs.remove_dir(&dir(&["docs"])), Ok(()));
    assert!(!fs.dir_exists(&dir(&["docs"])));
}

#[test]
fn eager_removal_errors() {
    let mut fs = VirtualFilesystem::new();
    assert_eq!(fs.remove_dir(&dir(&["nope"])), Err("Directory does not exist".to_string()));
    fs.create_dir(dir(&["a"]));
    fs.create_dir(dir(&["a", "b", "c"]));
    assert_eq!(fs.remove_dir(&dir(&["a"])), Err("Directory not empty".to_string()));
    assert!(!fs.remove_file(&file(&["a"], "missing")));
}

#[test]
fn eager_store_reads_writes_and_lists() {
    let mut fs = VirtualFilesystem::new();
    fs.write_file(&file(&["d"], "b.txt"), "2".to_string());
    fs.write_file(&file(&["d"], "a.txt"), "1".to_string());
    fs.write_file(&file(&["d"], "a.txt"), "3".to_string());
    assert_eq!(resident(fs.get_content(&file(&["d"], "a.txt"))), Some("3".to_string()));
    assert!(fs.get_content(&file(&["d"], "zz")).is_none());
    assert!(file(&["d"], "b.txt").exists_in(&fs));
    assert_eq!(fs.list_files_in_dir(&dir(&["d"])), vec!["a.txt".to_string(), "b.txt".to_string()]);
    fs.create_dir(dir(&["d", "z"]));
    fs.create_dir(dir(&["d", "m"]));
    fs.create_dir(dir(&["d", "m", "deeper"]));
    assert_eq!(fs.list_subdirs_in_dir(&dir(&["d"])), vec!["m".to_string(), "z".to_string()]);
    assert!(fs.list_files_in_dir(&dir(&["none"])).is_empty());
}

#[test]
fn manifest_creates_directories_and_pending_files() {
    let mut fs = VirtualFilesystem::new();
    let manifest = Manifest {
        files: vec![FileEntry { name: "x.txt".to_string(), path: "c".to_string() }],
        directories: vec!["a/b".to_string()],
    };
    fs.initialize_from_manifest(&manifest);
    for d in [dir(&[]), dir(&["a"]), dir(&["a", "b"]), dir(&["c"])] {
        assert!(fs.dir_exists(&d));
    }
    assert!(matches!(fs.get_content(&file(&["c"], "x.txt")), Some(Content::ToFetch)));
    assert_eq!(fs.list_subdirs_in_dir(&DirPath::root()), vec!["a".to_string(), "c".to_string()]);
}

#[test]
fn listing_files_parse_names() {
    let c = Contents::from_file(" a.txt \n\n\tb.md\r\n   \n");
    assert!(matches!(c.get("a.txt"), Some(Content::ToFetch)));
    assert!(matches!(c.get("b.md"), Some(Content::ToFetch)));
    assert_eq!(c.sorted_names(), vec!["a.txt".to_string(), "b.md".to_string()]);
    let d = Directories::from_file("x\ny\nx\n");
    assert!(d.contains("x") && d.contains("y"));
    assert_eq!(d.sorted_names().len(), 2);
}

#[test]
fn merged_listing_is_sorted() {
    let mut d = Directories::new();
    d.insert("x".to_string());
    let mut c = Contents::new();
    c.insert("z".to_string(), Content::ToFetch);
    c.insert("a".to_string(), Content::InMemory("1".to_string()));
    assert_eq!(list_directory(&d, &c), vec!["a".to_string(), "x/".to_string(), "z".to_string()]);
}

#[test]
fn overlay_removal_of_a_full_directory_fails() {
    let mut fs = AbyssFileSystem::new();
    let target = dir(&["abyss", "x"]);
    let mut files = Contents::new();
    files.insert("f".to_string(), Content::ToFetch);
    let mut parent = Directories::new();
    parent.insert("x".to_string());
    let r = fs.sync_remove_dir_with_data(&target, files, Directories::new(), parent);
    assert_eq!(r, Err("Directory not empty".to_string()));
    assert_eq!(fs.sync_remove_dir(&target).ok(), Some(Err("Directory not empty".to_string())));
    assert_eq!(fs.sync_remove_dir(&DirPath::root()).ok(), Some(Err("Invalid path".to_string())));
    assert!(fs.sync_remove_dir(&dir(&["abyss", "cold"])).is_err());
    assert!(fs.cached_contents(&target).is_some());
}

#[test]
fn overlay_retry_matches_a_warm_cache() {
    let fp = file(&["abyss", "x"], "f.txt");
    let mut listing = Contents::new();
    listing.insert("f.txt".to_string(), Content::ToFetch);
    let mut cold = AbyssFileSystem::new();
    assert!(cold.sync_remove_file(&fp).is_err());
    assert_eq!(cold.sync_remove_file_with_data(&fp, listing.copy()), Ok(()));
    let mut warm = AbyssFileSystem::new();
    warm.cache_contents(fp.dir.clone(), listing.copy());
    assert_eq!(warm.sync_remove_file(&fp).ok(), Some(true));
    assert_eq!(warm.sync_remove_file(&fp).ok(), Some(false));
    let mut warm = AbyssFileSystem::new();
    warm.cache_contents(fp.dir.clone(), listing.copy());
    assert_eq!(warm.sync_remove_file(&fp).ok(), Some(true));
    assert_eq!(
        cold.cached_contents(&fp.dir).unwrap().sorted_names(),
        warm.cached_contents(&fp.dir).unwrap().sorted_names()
    );
    assert_eq!(
        cold.sync_remove_file_with_data(&fp, Contents::new()),
        Err("No such file: /abyss/x/f.txt".to_string())
    );
}

#[test]
fn overlay_creates_directories_after_fetching_the_parent() {
    let mut fs = AbyssFileSystem::new();
    let d = dir(&["abyss", "new"]);
    assert!(fs.sync_create_dir(&d).is_err());
    assert_eq!(fs.sync_create_dir_with_data(&d, Directories::new()), Ok(()));
    assert!(fs.cached_directories(&dir(&["abyss"])).unwrap().contains("new"));
    assert!(fs.cached_contents(&d).is_some());
    assert!(fs.sync_create_dir(&dir(&["abyss", "other"])).is_ok());
    assert_eq!(fs.sync_create_dir_with_data(&DirPath::root(), Directories::new()), Err("Invalid path".to_string()));
}

#[test]
fn cold_write_fetches_once() {
    let mut r = Resolver::new();
    let fp = file(&["abyss", "x"], "f.txt");
    assert!(r.write_file(&fp, "v".to_string()).is_err());
    assert!(r.contents_of(&fp.dir).is_none());
    let listing = r.contents_fetched(&fp.dir, "other.txt\n");
    r.write_file_fetched(&fp, listing, "v".to_string());
    assert!(r.write_file(&file(&["abyss", "x"], "g.txt"), "w".to_string()).is_ok());
    let now = r.contents_of(&fp.dir).unwrap();
    assert_eq!(resident(now.get("f.txt")), Some("v".to_string()));
    assert_eq!(resident(now.get("g.txt")), Some("w".to_string()));
    assert!(matches!(now.get("other.txt"), Some(Content::ToFetch)));
}

#[test]
fn resolver_routes_by_first_move() {
    assert!(path_in_abyss(&dir(&["abyss", "q"])));
    assert!(!path_in_abyss(&dir(&["docs", "abyss"])));
    let mut r = Resolver::new();
    let fp = file(&["docs"], "a.txt");
    assert!(r.write_file(&fp, "hi".to_string()).is_ok());
    assert_eq!(resident(r.eager.get_content(&fp)), Some("hi".to_string()));
    assert_eq!(r.remove_file(&fp).ok(), Some(true));
    assert_eq!(r.remove_file(&fp).ok(), Some(false));
    assert!(r.create_dir(&dir(&["docs", "sub"])).is_ok());
    let subs = r.directories_of(&dir(&["docs"])).unwrap();
    assert!(dir_exists_in(&dir(&["docs", "sub"]), &subs));
    assert!(dir_exists_in(&DirPath::root(), &Directories::new()));
    assert_eq!(r.remove_dir(&dir(&["docs", "sub"])).ok(), Some(Ok(())));
}

#[test]
fn maze_merges_once() {
    let mut r = Resolver::new();
    let mount = dir(&["abyss", "cave_of_dice"]);
    assert!(r.path_in_cave_of_dice(&mount));
    let top = r.contents_of(&mount).unwrap();
    assert!(matches!(top.get("README.md"), Some(Content::InMemory(_))));
    assert_eq!(r.directories_of(&mount).unwrap().sorted_names().len(), 6);
    assert!(r.write_file(&FilePath::new(mount.clone(), "mine.txt".to_string()), "x".to_string()).is_ok());
    for _ in 0..3 {
        assert!(r.path_in_cave_of_dice(&mount));
    }
    let again = r.contents_of(&mount).unwrap();
    assert_eq!(resident(again.get("mine.txt")), Some("x".to_string()));
    assert!(!r.path_in_cave_of_dice(&dir(&["docs"])));
}

#[test]
fn reading_resolves_each_kind_of_content() {
    let mut r = Resolver::new();
    let fp = file(&["docs"], "a.txt");
    match r.read_content_at(None, &fp) {
        Reading::Missing(m) => assert_eq!(m, "/docs/a.txt: No such file"),
        _ => panic!("expected a missing file"),
    }
    match r.read_content_at(Some(&Content::InMemory("t".to_string())), &fp) {
        Reading::Text(t) => assert_eq!(t, "t"),
        _ => panic!("expected text"),
    }
    match r.read_content_at(Some(&Content::ToFetch), &fp) {
        Reading::Fetch(u) => assert_eq!(u, "./content/docs/a.txt"),
        _ => panic!("expected a fetch"),
    }
    let die = file(&["abyss", "cave_of_dice", "d6"], "d6.txt");
    for _ in 0..20 {
        match r.read_content_at(Some(&Content::ToFetch), &die) {
            Reading::Text(t) => {
                let k: u32 = t.strip_prefix("You rolled a ").unwrap().parse().unwrap();
                assert!((1..=6).contains(&k));
            }
            _ => panic!("expected a roll"),
        }
    }
}

#[test]
fn dice_file_names() {
    assert_eq!(is_dice_file_name("d6.txt"), Some(6));
    assert_eq!(is_dice_file_name("d+20.txt"), Some(20));
    assert_eq!(is_dice_file_name("d.txt"), None);
    assert_eq!(is_dice_file_name("d6.md"), None);
    assert_eq!(is_dice_file_name("d1.2.txt"), None);
    assert_eq!(is_dice_file_name("d256.txt"), None);
    assert_eq!(is_dice_file_name("x6.txt"), None);
    let m = roll_message(1);
    assert_eq!(m, "You rolled a 1");
}

#[test]
fn generated_maze_has_its_fixed_top() {
    let maze = build_cave_of_dice();
    let top = maze.cached_contents(&DirPath::root()).unwrap();
    assert_eq!(
        resident(top.get("README.md")),
        Some("Hope you like dice, there are a lot of them here.".to_string())
    );
    let dirs = maze.cached_directories(&DirPath::root()).unwrap().sorted_names();
    assert_eq!(dirs, vec!["d10", "d12", "d20", "d4", "d6", "d8"]);
    let d4 = maze.cached_contents(&dir(&["d4"])).unwrap();
    assert_eq!(d4.sorted_names(), vec!["d4.txt".to_string()]);
}

#[test]
fn session_import_writes_every_text_member() {
    let mut fs = VirtualFilesystem::new();
    let r = import_session(&mut fs, r#"{"version":"1.0","files":{"/a.txt":"1","/b/c.txt":"2"}}"#);
    assert_eq!(r, "Imported 2 file(s)");
    assert_eq!(resident(fs.get_content(&file(&[], "a.txt"))), Some("1".to_string()));
    assert_eq!(resident(fs.get_content(&file(&["b"], "c.txt"))), Some("2".to_string()));
}

#[test]
fn session_import_rejects_other_versions() {
    let mut fs = VirtualFilesystem::new();
    let r = import_session(&mut fs, r#"{"version":"2.0","files":{"/a.txt":"1"}}"#);
    assert_eq!(r, "Error: Unsupported session version: 2.0");
    assert!(!fs.dir_exists(&DirPath::root()));
    assert!(fs.get_content(&file(&[], "a.txt")).is_none());
}

#[test]
fn session_import_errors() {
    let mut fs = VirtualFilesystem::new();
    assert_eq!(import_session(&mut fs, r#"{"files":{}}"#), "Error: Invalid session file: missing version");
    assert_eq!(
        import_session(&mut fs, r#"{"version":"1.0","files":[]}"#),
        "Error: Invalid session file: missing or invalid files"
    );
    assert!(import_session(&mut fs, "not json").starts_with("Error: Failed to parse session file: "));
    assert_eq!(import_session(&mut fs, r#"{"version":"1.0","files":{"/n.txt":3}}"#), "Imported 0 file(s)");
}

#[test]
fn session_export_round_trips() {
    let mut fs = VirtualFilesystem::new();
    fs.write_file(&file(&["b"], "q.txt"), "say \"hi\"".to_string());
    let mut m = Manifest { files: vec![], directories: vec![] };
    m.files.push(FileEntry { name: "pending.txt".to_string(), path: "".to_string() });
    fs.initialize_from_manifest(&m);
    let text = export_session(&fs);
    assert_eq!(text, r#"{"version":"1.0","files":{"/b/q.txt":"say \"hi\""}}"#);
    let mut other = VirtualFilesystem::new();
    assert_eq!(import_session(&mut other, &text), "Imported 1 file(s)");
    assert_eq!(resident(other.get_content(&file(&["b"], "q.txt"))), Some("say \"hi\"".to_string()));
}

#[test]
fn input_history_navigation() {
    let mut h = InputHistory::new();
    h.add_input("ls".to_string());
    h.add_input(String::new());
    h.add_input("pwd".to_string());
    assert_eq!(h.arrow_down(), None);
    assert_eq!(h.arrow_up(), Some("pwd".to_string()));
    assert_eq!(h.arrow_up(), Some("ls".to_string()));
    assert_eq!(h.arrow_up(), None);
    assert_eq!(h.arrow_down(), Some("pwd".to_string()));
    assert_eq!(h.arrow_down(), Some(String::new()));
    assert_eq!(h.arrow_down(), None);
}

#[test]
fn fibonacci_and_commands() {
    assert_eq!(fibonacci(0), 0);
    assert_eq!(fibonacci(10), 55);
    assert_eq!(fibonacci(93), 12200160415121876738);
    let fib = Fib;
    assert_eq!(fib.execute(&vec!["10".to_string()]), "fibonacci(10) = 55");
    assert_eq!(fib.execute(&vec!["94".to_string()]), "Please enter a number between 0 and 93");
    assert_eq!(fib.execute(&vec!["ten".to_string()]), "Usage: fib <number>");
    assert_eq!(fib.execute(&vec![]), "Usage: fib <number>");
    assert_eq!(Echo.execute(&vec!["a".to_string(), "b".to_string()]), "a b");
    assert_eq!(Echo.execute(&vec![]), "");
    assert_eq!(Hello.name(), "hello");
}

#[test]
fn help_answers() {
    let args = |v: &[&str]| v.iter().map(|s| s.to_string()).collect::<Vec<String>>();
    assert_eq!(Help.repeated_help(&args(&["help", "help"])), Some("A\u{200B}".repeat(16)));
    assert_eq!(Help.repeated_help(&args(&["help", "-v", "help", "help"])), Some("A\u{200B}".repeat(72)));
    assert_eq!(Help.repeated_help(&args(&["help"])), None);
    assert_eq!(Help.repeated_help(&args(&["help", "help", "ls"])), None);
    assert_eq!(Help.page(&args(&[])).to_string(), "/help.txt");
    assert_eq!(Help.page(&args(&["-v"])).to_string(), "/help-verbose.txt");
    assert_eq!(Help.page(&args(&["", "ls", "-v"])).to_string(), "/manuals/verbose/ls.txt");
    assert_eq!(Help.page(&args(&["ls", "cd"])).to_string(), "/manuals/simple/ls.txt");
}

#[test]
fn import_of_decoded_sessions() {
    let mut fs = VirtualFilesystem::new();
    assert_eq!(import_decoded(&mut fs, Err("boom".to_string())), "Error: Failed to parse session file: boom");
    assert_eq!(import_decoded(&mut fs, Ok((None, Some(vec![])))), "Error: Invalid session file: missing version");
    assert_eq!(
        import_decoded(&mut fs, Ok((Some("1.0".to_string()), None))),
        "Error: Invalid session file: missing or invalid files"
    );
    assert!(!fs.dir_exists(&DirPath::root()));
    let members = vec![("/x/y.txt".to_string(), Some("t".to_string())), ("/z".to_string(), None)];
    assert_eq!(import_decoded(&mut fs, Ok((Some("1.0".to_string()), Some(members)))), "Imported 1 file(s)");
    assert_eq!(resident(fs.get_content(&file(&["x"], "y.txt"))), Some("t".to_string()));
    assert!(fs.get_content(&file(&[], "z")).is_none());
}

#[test]
fn export_escapes_and_lists_each_file_once() {
    let mut fs = VirtualFilesystem::new();
    fs.write_file(&file(&[], "c.txt"), "a\nb\u{1}\\".to_string());
    assert_eq!(export_session(&fs), r#"{"version":"1.0","files":{"/c.txt":"a\nb\u0001\\"}}"#);
    assert_eq!(export_session(&VirtualFilesystem::new()), r#"{"version":"1.0","files":{}}"#);
}

#[test]
fn numerals() {
    assert_eq!(decimal_text(0), "0");
    assert_eq!(decimal_text(1234567890), "1234567890");
    assert_eq!(parse_u8("+7"), Some(7));
    assert_eq!(parse_u8("255"), Some(255));
    assert_eq!(parse_u8("256"), None);
    assert_eq!(parse_u8("-1"), None);
    assert_eq!(parse_u8(""), None);
    assert_eq!(parse_u8("+"), None);
    assert_eq!(parse_u32("4294967295"), Some(u32::MAX));
    assert_eq!(parse_u32("4294967296"), None);
    assert_eq!(parse_decimal("0012", 20), Some(12));
    assert_eq!(parse_decimal("1x", 20), None);
}

#[test]
fn cached_removals_report_at_once() {
    let mut r = Resolver::new();
    let d = dir(&["abyss", "w"]);
    let listing = r.contents_fetched(&d, "a.txt\n");
    r.directories_fetched(&d, "");
    r.directories_fetched(&dir(&["abyss"]), "w\n");
    drop(listing);
    assert_eq!(r.remove_file(&file(&["abyss", "w"], "missing")).ok(), Some(false));
    assert_eq!(r.remove_dir(&d).ok(), Some(Err("Directory not empty".to_string())));
    assert_eq!(r.remove_file(&file(&["abyss", "w"], "a.txt")).ok(), Some(true));
    assert_eq!(r.remove_dir(&d).ok(), Some(Ok(())));
    assert!(r.remove_file(&file(&["abyss", "cold"], "x")).is_err());
}

#[test]
fn session_members_of_other_kinds() {
    let mut fs = VirtualFilesystem::new();
    assert_eq!(import_session(&mut fs, r#"{"version":1,"files":{}}"#), "Error: Invalid session file: missing version");
    assert_eq!(import_session(&mut fs, r#"["version","1.0"]"#), "Error: Invalid session file: missing version");
    assert_eq!(
        import_session(&mut fs, r#"{"files":"x","version":"1.0"}"#),
        "Error: Invalid session file: missing or invalid files"
    );
    assert_eq!(import_session(&mut fs, r#"{"files":{"/k.txt":"v"},"version":"1.0","extra":[1]}"#), "Imported 1 file(s)");
}

#[test]
fn export_writes_each_path_once() {
    let mut fs = VirtualFilesystem::new();
    fs.write_file(&FilePath::new(dir(&["a/b"]), "c".to_string()), "1".to_string());
    fs.write_file(&file(&["a", "b"], "c"), "2".to_string());
    let text = export_session(&fs);
    assert_eq!(text.matches("\"/a/b/c\"").count(), 1);
}
