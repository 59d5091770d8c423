use expbench::text::{
    dedup_strings, file_stem, join_strings, parse_u64, split_lines_exec, str_eq, trim_exec,
    u64_to_string, vec_has_string,
};

#[test]
fn renders_decimal() {
    assert_eq!(u64_to_string(0), "0");
    assert_eq!(u64_to_string(7), "7");
    assert_eq!(u64_to_string(124), "124");
    assert_eq!(u64_to_string(128000), "128000");
    assert_eq!(u64_to_string(u64::MAX), "18446744073709551615");
}

#[test]
fn parses_decimal() {
    assert_eq!(parse_u64("0"), Some(0));
    assert_eq!(parse_u64("124"), Some(124));
    assert_eq!(parse_u64("007"), Some(7));
    assert_eq!(parse_u64(""), None);
    assert_eq!(parse_u64("12a"), None);
    assert_eq!(parse_u64("-1"), None);
    assert_eq!(parse_u64("18446744073709551615"), Some(u64::MAX));
    assert_eq!(parse_u64("18446744073709551616"), None);
}

#[test]
fn trims_whitespace() {
    assert_eq!(trim_exec("  124\n"), "124");
    assert_eq!(trim_exec("\t\r\nx y\n\n"), "x y");
    assert_eq!(trim_exec(""), "");
    assert_eq!(trim_exec(" \n "), "");
    assert_eq!(trim_exec("abc"), "abc");
}

#[test]
fn file_stems() {
    assert_eq!(file_stem("/a/b/p1.pddl"), "p1");
    assert_eq!(file_stem("p1.pddl"), "p1");
    assert_eq!(file_stem("dir/archive.tar.gz"), "archive.tar");
    assert_eq!(file_stem("/a/.hidden"), ".hidden");
    assert_eq!(file_stem("/a/b/"), "");
    assert_eq!(file_stem("noext"), "noext");
}

#[test]
fn splits_lines() {
    assert_eq!(split_lines_exec(""), Vec::<String>::new());
    assert_eq!(split_lines_exec("a"), vec!["a"]);
    assert_eq!(split_lines_exec("a\nb"), vec!["a", "b"]);
    assert_eq!(split_lines_exec("a\nb\n"), vec!["a", "b"]);
    assert_eq!(split_lines_exec("a\n\nb"), vec!["a", "", "b"]);
    assert_eq!(split_lines_exec("\n"), vec![""]);
}

#[test]
fn joins_strings() {
    let parts: Vec<String> = vec!["a".to_owned(), "b".to_owned(), "c".to_owned()];
    assert_eq!(join_strings(&parts, ","), "a,b,c");
    let one: Vec<String> = vec!["x".to_owned()];
    assert_eq!(join_strings(&one, ","), "x");
    let none: Vec<String> = vec![];
    assert_eq!(join_strings(&none, ","), "");
}

#[test]
fn dedups_keeping_first() {
    let parts: Vec<String> =
        vec!["b".to_owned(), "a".to_owned(), "b".to_owned(), "c".to_owned(), "a".to_owned()];
    assert_eq!(dedup_strings(&parts), vec!["b", "a", "c"]);
}

#[test]
fn string_equality_and_membership() {
    assert!(str_eq("abc", "abc"));
    assert!(!str_eq("abc", "abd"));
    assert!(!str_eq("abc", "ab"));
    let parts: Vec<String> = vec!["x".to_owned(), "y".to_owned()];
    assert!(vec_has_string(&parts, "y"));
    assert!(!vec_has_string(&parts, "z"));
}
