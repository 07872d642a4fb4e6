use shellfs::path::{DirPath, NextDir};

#[test]
fn test_root_path() {
    let path = DirPath::root();
    assert_eq!(path.to_string(), "/");
}

#[test]
fn test_simple_path() {
    let mut path = DirPath::root();
    path.cd(&NextDir::In("usr".to_string()), true);
    path.cd(&NextDir::In("local".to_string()), true);
    assert_eq!(path.to_string(), "/usr/local");
}

#[test]
fn test_path_with_out_at_root() {
    let mut path = DirPath::root();
    path.cd(&NextDir::In("usr".to_string()), true);
    path.cd(&NextDir::In("local".to_string()), true);
    path.cd(&NextDir::Out, true);
    path.cd(&NextDir::In("bin".to_string()), true);
    assert_eq!(path.to_string(), "/usr/bin");
}

#[test]
fn test_path_with_out_not_at_root() {
    let mut path = DirPath::root();
    path.cd(&NextDir::In("usr".to_string()), false);
    path.cd(&NextDir::In("local".to_string()), false);
    path.cd(&NextDir::Out, false);
    path.cd(&NextDir::In("bin".to_string()), false);
    assert_eq!(path.to_string(), "/usr/bin");
}

#[test]
fn test_normalization_at_root() {
    let path = DirPath(vec![
        NextDir::In("usr".to_string()),
        NextDir::Out,
        NextDir::In("Documents".to_string()),
    ]);
    let normalized = path.normalised(true);
    assert_eq!(normalized.to_string(), "/Documents");
}

#[test]
fn test_normalization_not_at_root() {
    let path = DirPath(vec![
        NextDir::In("usr".to_string()),
        NextDir::Out,
        NextDir::In("Documents".to_string()),
    ]);
    let normalized = path.normalised(false);
    assert_eq!(normalized.to_string(), "/Documents");
}

#[test]
fn test_out_beyond_root_at_root() {
    let mut path = DirPath::root();
    path.cd(&NextDir::Out, true); // Try to go up from root when at_root=true
    assert_eq!(path.to_string(), "/");
}

#[test]
fn test_out_beyond_root_not_at_root() {
    let mut path = DirPath::root();
    path.cd(&NextDir::Out, false); // Try to go up from root when at_root=false
    assert_eq!(path.to_string(), "/..");
}

#[test]
fn test_complex_path() {
    let mut path = DirPath::root();
    path.cd(&NextDir::In("home".to_string()), true);
    path.cd(&NextDir::In("user".to_string()), true);
    path.cd(&NextDir::In("docs".to_string()), true);
    path.cd(&NextDir::Out, true);
    path.cd(&NextDir::Out, true);
    path.cd(&NextDir::In("projects".to_string()), true);
    assert_eq!(path.to_string(), "/home/projects");
}

#[test]
fn test_complex_path_not_at_root() {
    let mut path = DirPath::root();
    path.cd(&NextDir::In("home".to_string()), false);
    path.cd(&NextDir::In("user".to_string()), false);
    path.cd(&NextDir::Out, false);
    path.cd(&NextDir::Out, false);
    path.cd(&NextDir::Out, false);
    path.cd(&NextDir::In("projects".to_string()), false);
    assert_eq!(path.to_string(), "/../projects");
}

#[test]
fn test_concat_simple() {
    let mut base = DirPath::root();
    base.cd(&NextDir::In("home".to_string()), true);
    base.cd(&NextDir::In("user".to_string()), true);

    let mut relative = DirPath::root();
    relative.cd(&NextDir::In("documents".to_string()), false);

    let result = base.concat(&relative, true);
    assert_eq!(result.to_string(), "/home/user/documents");
}

#[test]
fn test_concat_with_out() {
    let mut base = DirPath::root();
    base.cd(&NextDir::In("home".to_string()), true);
    base.cd(&NextDir::In("user".to_string()), true);
    base.cd(&NextDir::In("projects".to_string()), true);

    let mut relative = DirPath::root();
    relative.cd(&NextDir::Out, false);
    relative.cd(&NextDir::In("documents".to_string()), false);

    let result = base.concat(&relative, true);
    assert_eq!(result.to_string(), "/home/user/documents");
}

#[test]
fn test_concat_multiple_out_at_root() {
    let mut base = DirPath::root();
    base.cd(&NextDir::In("usr".to_string()), true);

    let mut relative = DirPath::root();
    relative.cd(&NextDir::Out, false);
    relative.cd(&NextDir::Out, false);
    relative.cd(&NextDir::In("home".to_string()), false);

    let result = base.concat(&relative, true);
    assert_eq!(result.to_string(), "/home");
}

#[test]
fn test_concat_multiple_out_not_at_root() {
    let mut base = DirPath::root();
    base.cd(&NextDir::In("usr".to_string()), false);

    let mut relative = DirPath::root();
    relative.cd(&NextDir::Out, false);
    relative.cd(&NextDir::Out, false);
    relative.cd(&NextDir::In("home".to_string()), false);

    let result = base.concat(&relative, false);
    assert_eq!(result.to_string(), "/../home");
}

#[test]
fn test_concat_empty_relative() {
    let mut base = DirPath::root();
    base.cd(&NextDir::In("home".to_string()), true);

    let relative = DirPath::root();

    let result = base.concat(&relative, true);
    assert_eq!(result.to_string(), "/home");
}

#[test]
fn test_concat_complex_path() {
    let mut base = DirPath::root();
    base.cd(&NextDir::In("home".to_string()), true);
    base.cd(&NextDir::In("user".to_string()), true);
    base.cd(&NextDir::In("projects".to_string()), true);
    base.cd(&NextDir::In("rust".to_string()), true);

    let mut relative = DirPath::root();
    relative.cd(&NextDir::Out, false);
    relative.cd(&NextDir::Out, false);
    relative.cd(&NextDir::In("documents".to_string()), false);
    relative.cd(&NextDir::In("notes.txt".to_string()), false);

    let result = base.concat(&relative, true);
    assert_eq!(result.to_string(), "/home/user/documents/notes.txt");
}
