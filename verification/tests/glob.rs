use argon::glob::{matches_any, matches_glob};
use argon::meta::Context;

#[test]
fn a_star_stands_for_any_run_of_characters() {
    assert!(matches_glob("*.md", "README.md"));
    assert!(matches_glob("*.md", "src/README.md"));
    assert!(matches_glob("*.md", ".md"));
    assert!(!matches_glob("*.md", "README.mdx"));
    assert!(!matches_glob("*.md", "README"));
    assert!(matches_glob("*", ""));
    assert!(matches_glob("*", "anything/at/all"));
    assert!(matches_glob("src/*/init.*", "src/a/b/init.luau"));
    assert!(matches_glob("a*b*c", "aXbYc"));
    assert!(matches_glob("a*b*c", "abc"));
    assert!(matches_glob("a*b*c", "abbcbc"));
    assert!(!matches_glob("a*b*c", "acb"));
    assert!(matches_glob("**", "x"));
}

#[test]
fn a_question_mark_stands_for_one_character() {
    assert!(matches_glob("?.txt", "a.txt"));
    assert!(!matches_glob("?.txt", ".txt"));
    assert!(!matches_glob("?.txt", "ab.txt"));
    assert!(matches_glob("??", "é!"));
    assert!(!matches_glob("?", ""));
}

#[test]
fn other_characters_stand_for_themselves() {
    assert!(matches_glob("", ""));
    assert!(!matches_glob("", "a"));
    assert!(matches_glob("src/init.luau", "src/init.luau"));
    assert!(!matches_glob("src/init.luau", "src/init.lua"));
    assert!(!matches_glob("src/init.lua", "src/init.luau"));
    assert!(!matches_glob("a", "A"));
}

#[test]
fn one_matching_pattern_is_enough() {
    let patterns = vec![String::from("*.md"), String::from("*.tmp")];
    assert!(matches_any(&patterns, "notes.md"));
    assert!(matches_any(&patterns, "a/b.tmp"));
    assert!(!matches_any(&patterns, "a/b.luau"));
    assert!(!matches_any(&vec![], "a/b.luau"));
}

#[test]
fn paths_left_out_by_the_context() {
    let context = Context::new(false).with_ignore_globs(vec![String::from("*.md")]);
    assert!(context.is_ignored("src/README.md"));
    assert!(!context.is_ignored("src/init.luau"));
    assert!(!Context::new(false).is_ignored("src/README.md"));
    assert!(!context.use_legacy_scripts());
    assert!(Context::new(true).with_ignore_globs(vec![]).use_legacy_scripts());
}
