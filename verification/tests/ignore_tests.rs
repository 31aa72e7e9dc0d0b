use own::ignore::{convert_gitignore_pattern, load_ignore_patterns, should_ignore, IgnorePattern};

#[test]
fn test_should_ignore() {
    let patterns = vec![
        IgnorePattern::new("**/*.o").unwrap(),
        IgnorePattern::new("**/target/**").unwrap(),
        IgnorePattern::new("**/node_modules/**").unwrap(),
    ];
    assert!(patterns.len() == 3);
}

#[test]
fn git_and_own_dirs_are_always_ignored() {
    let patterns = load_ignore_patterns(None, None);
    let texts: Vec<&str> = patterns.iter().map(|p| p.as_str()).collect();
    assert_eq!(texts, vec![".git", ".own"]);
    assert!(patterns.iter().all(|p| !p.is_negation()));
    assert!(should_ignore(".git", &patterns));
    assert!(should_ignore(".git/config", &patterns));
    assert!(should_ignore("./.own/src/main.rs.own", &patterns));
    assert!(!should_ignore("src/main.rs", &patterns));
}

#[test]
fn gitignore_patterns_become_globs() {
    assert_eq!(convert_gitignore_pattern("target/").unwrap().as_str(), "**/target");
    assert_eq!(convert_gitignore_pattern("/build//").unwrap().as_str(), "build");
    assert_eq!(convert_gitignore_pattern("*.o").unwrap().as_str(), "**/*.o");
    assert_eq!(convert_gitignore_pattern("src/gen").unwrap().as_str(), "src/gen");
}

#[test]
fn bad_glob_is_refused() {
    assert!(IgnorePattern::new("a***").is_err());
    assert!(IgnorePattern::new("[abc").is_err());
    assert!(convert_gitignore_pattern("x[").is_err());
}

#[test]
fn ignore_files_are_read_in_order() {
    let own = "# comment\n\n!keep.o\n*.o\n/target/\n";
    let git = "node_modules/\nbad***\n";
    let patterns = load_ignore_patterns(Some(own), Some(git));
    let texts: Vec<&str> = patterns.iter().map(|p| p.as_str()).collect();
    assert_eq!(texts, vec!["**/keep.o", "**/*.o", "target", "**/node_modules", ".git", ".own"]);
    let negations: Vec<bool> = patterns.iter().map(|p| p.is_negation()).collect();
    assert_eq!(negations, vec![true, false, false, false, false, false]);
    // the later `*.o` decides for keep.o
    assert!(should_ignore("keep.o", &patterns));
    assert!(should_ignore("src/a.o", &patterns));
    assert!(should_ignore("./src/deep/b.o", &patterns));
    assert!(should_ignore("target/debug/app", &patterns));
    assert!(should_ignore("web/node_modules/x/index.js", &patterns));
    assert!(!should_ignore("src/main.rs", &patterns));
}

#[test]
fn a_later_negation_takes_a_file_back() {
    let patterns = load_ignore_patterns(Some("*.log\n!keep.log\n"), None);
    assert!(should_ignore("debug.log", &patterns));
    assert!(should_ignore("logs/debug.log", &patterns));
    assert!(!should_ignore("keep.log", &patterns));
    assert!(!should_ignore("./keep.log", &patterns));
}

#[test]
fn a_file_in_an_excluded_directory_stays_out() {
    let patterns = load_ignore_patterns(Some("target/\n!target/keep.txt\n"), None);
    assert!(should_ignore("target/keep.txt", &patterns));
    assert!(!should_ignore("src/keep.txt", &patterns));
}

#[test]
fn negations_cannot_take_back_git_or_own() {
    let patterns = load_ignore_patterns(Some("!.git\n!.own/tags\n"), Some("!*"));
    assert!(should_ignore(".git/config", &patterns));
    assert!(should_ignore(".own/tags", &patterns));
}
