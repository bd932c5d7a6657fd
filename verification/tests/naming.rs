use cellsplit::layout::{
    fragment_stem_of, has_file_name, header_of, marker_of, parts_of, read_marker, root_stem_of,
    sibling_path, split_path,
};
use cellsplit::naming::{slugify, tidy, trimmed};
use cellsplit::text::{
    char_is_space, chars_of, count_indent, decimal_string, has_prefix_at, join2, same_text,
    string_of,
};
use cellsplit::error::Error;

#[test]
fn slug_is_cut_to_twenty_characters() {
    let s = slugify("A very long section title exceeding twenty chars", 20);
    assert_eq!(s, "a_very_long_section_");
    assert_eq!(s.chars().count(), 20);
}

#[test]
fn slug_of_short_title_is_whole() {
    assert_eq!(slugify("My Test String!!!1!1", 50), "my_test_string_1_1");
    assert_eq!(slugify(" section a", 20), "section_a");
    assert_eq!(slugify("if y > 1", 20), "if_y_1");
}

#[test]
fn slug_of_nothing_is_empty() {
    assert_eq!(slugify("", 20), "");
    assert_eq!(slugify("   ", 20), "");
    assert_eq!(slugify("abc", 0), "");
}

#[test]
fn slug_counts_characters_not_bytes() {
    assert_eq!(slugify("Æúű--cool?", 20), "aeuu_cool");
    assert_eq!(slugify("Æúű--cool?", 3), "aeu");
    assert_eq!(slugify("ß ß ß ß", 5), "ss_ss");
}

#[test]
fn tidy_replaces_and_cuts() {
    assert_eq!(tidy("a-b-c", 10), "a_b_c");
    assert_eq!(tidy("a-b-c", 3), "a_b");
    assert_eq!(tidy("a b/c", 10), "a_b_c");
    assert_eq!(tidy("", 4), "");
}

#[test]
fn trimmed_drops_white_space_at_both_ends() {
    assert_eq!(trimmed("  a b \t"), "a b");
    assert_eq!(trimmed("\u{3000}x\u{a0}"), "x");
    assert_eq!(trimmed("   "), "");
    assert_eq!(trimmed("x"), "x");
}

#[test]
fn white_space_is_the_unicode_property() {
    for c in [' ', '\t', '\n', '\u{b}', '\u{c}', '\r', '\u{85}', '\u{a0}', '\u{1680}', '\u{2000}',
        '\u{200a}', '\u{2028}', '\u{2029}', '\u{202f}', '\u{205f}', '\u{3000}']
    {
        assert!(char_is_space(c));
        assert!(c.is_whitespace());
    }
    for c in ['a', '_', '%', '0', '\u{200b}', '\u{180e}', '\u{feff}'] {
        assert!(!char_is_space(c));
        assert!(!c.is_whitespace());
    }
}

#[test]
fn text_helpers() {
    let v = chars_of("  héllo");
    assert_eq!(v, vec![' ', ' ', 'h', 'é', 'l', 'l', 'o']);
    assert_eq!(count_indent(&v), 2);
    assert_eq!(string_of(&v, 2, 4), "hé");
    assert!(has_prefix_at(&v, 2, "hé"));
    assert!(!has_prefix_at(&v, 2, "he"));
    assert!(!has_prefix_at(&v, 6, "oo"));
    assert!(has_prefix_at(&v, 7, ""));
    assert_eq!(join2("ab", "cd"), "abcd");
    assert!(same_text("abc", "abc"));
    assert!(!same_text("abc", "abd"));
    assert!(!same_text("abc", "ab"));
}

#[test]
fn decimal_numbers() {
    assert_eq!(decimal_string(0), "0");
    assert_eq!(decimal_string(7), "7");
    assert_eq!(decimal_string(10), "10");
    assert_eq!(decimal_string(1234567890), "1234567890");
    assert_eq!(decimal_string(u128::MAX), "340282366920938463463374607431768211455");
}

#[test]
fn path_is_split_at_last_slash_and_last_dot() {
    let p = split_path("/home/me/script.m").unwrap();
    assert_eq!((p.dir.as_str(), p.stem.as_str(), p.ext.as_str()), ("/home/me/", "script", "m"));
    let p = split_path("a.b.c").unwrap();
    assert_eq!((p.dir.as_str(), p.stem.as_str(), p.ext.as_str()), ("", "a.b", "c"));
    let p = split_path("/x/.hidden").unwrap();
    assert_eq!((p.dir.as_str(), p.stem.as_str(), p.ext.as_str()), ("/x/", ".hidden", ""));
    let p = split_path("/x/noext").unwrap();
    assert_eq!((p.dir.as_str(), p.stem.as_str(), p.ext.as_str()), ("/x/", "noext", ""));
    let p = split_path("/x/dot.").unwrap();
    assert_eq!((p.dir.as_str(), p.stem.as_str(), p.ext.as_str()), ("/x/", "dot", ""));
}

#[test]
fn path_without_file_name_is_invalid() {
    assert_eq!(split_path("/home/me/").err(), Some(Error::InvalidPath));
    assert_eq!(split_path("").err(), Some(Error::InvalidPath));
    assert_eq!(split_path("/a/..").err(), Some(Error::InvalidPath));
    assert!(!has_file_name("/"));
    assert!(has_file_name("/a"));
    assert!(has_file_name("..."));
    let p = parts_of("/home/me/");
    assert_eq!((p.dir.as_str(), p.stem.as_str(), p.ext.as_str()), ("/home/me/", "", ""));
}

#[test]
fn names_follow_the_pattern() {
    let p = split_path("/d/in.m").unwrap();
    assert_eq!(root_stem_of(&p), "in_gen");
    assert_eq!(sibling_path(&p, "in_gen"), "/d/in_gen.m");
    assert_eq!(fragment_stem_of(&p, "section_a", 1), "in_section_a_1");
    assert_eq!(fragment_stem_of(&p, "", 12), "in__12");
    assert_eq!(header_of(3, "/d/in.m"), "% part 3 of /d/in.m");
    assert_eq!(marker_of("    ", "in_if_y_1_2", 2), "    in_if_y_1_2 %cellsplit<2>");
    let q = split_path("/d/noext").unwrap();
    assert_eq!(sibling_path(&q, "noext_gen"), "/d/noext_gen.");
}

#[test]
fn marker_lines_are_read() {
    assert_eq!(read_marker("in_a_1 %cellsplit<1>"), Some("in_a_1".to_string()));
    assert_eq!(read_marker("   \tin_a_1 %cellsplit<10>"), Some("in_a_1".to_string()));
    assert_eq!(read_marker("x %cellsplit<007>"), Some("x".to_string()));
    assert_eq!(read_marker(&marker_of("  ", "s_t_4", 4)), Some("s_t_4".to_string()));
}

#[test]
fn other_lines_are_no_markers() {
    assert_eq!(read_marker(""), None);
    assert_eq!(read_marker("x = 1;"), None);
    assert_eq!(read_marker(" %cellsplit<1>"), None);
    assert_eq!(read_marker("a %cellsplit<>"), None);
    assert_eq!(read_marker("a %cellsplit<1> "), None);
    assert_eq!(read_marker("a %cellsplit<1>x"), None);
    assert_eq!(read_marker("a  %cellsplit<1>"), None);
    assert_eq!(read_marker("a b %cellsplit<1>"), None);
    assert_eq!(read_marker("a %cellsplit<1a>"), None);
    assert_eq!(read_marker("a %cellsplit<1"), None);
    assert_eq!(read_marker("a %cellsplit<١>"), None);
    assert_eq!(read_marker("a %Cellsplit<1>"), None);
}

#[test]
fn slug_has_no_leading_and_no_double_separator() {
    assert_eq!(slugify("  --test_-_cool", 20), "test_cool");
    assert_eq!(slugify("a -- b", 20), "a_b");
    assert_eq!(slugify("%%% x !!! y ???", 20), "x_y");
    assert_eq!(slugify("one two", 4), "one_");
    assert_eq!(slugify("You & Me", 20), "you_me");
}
