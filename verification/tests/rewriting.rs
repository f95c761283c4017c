use variant_group_transformer::{expand_group, rewrite_groups};

/// One match: the byte ranges of the whole group, its prefix, its separator
/// and its body.
fn found(
    whole: (usize, usize),
    prefix: (usize, usize),
    sep: (usize, usize),
    body: (usize, usize),
) -> Vec<Option<(usize, usize)>> {
    vec![Some(whole), Some(prefix), Some(sep), Some(body)]
}

#[test]
fn each_member_gets_prefix_and_separator() {
    assert_eq!(
        expand_group("hover", ':', "bg-gray-400 font-medium"),
        "hover:bg-gray-400 hover:font-medium"
    );
    assert_eq!(expand_group("font", '-', "light mono"), "font-light font-mono");
    assert_eq!(expand_group("a", '-', "b"), "a-b");
}

#[test]
fn members_keep_their_order() {
    assert_eq!(expand_group("p", '-', "3 1 2 1"), "p-3 p-1 p-2 p-1");
}

#[test]
fn body_is_split_at_any_whitespace() {
    assert_eq!(expand_group("a", '-', " \n b\t\tc \r\n"), "a-b a-c");
    assert_eq!(expand_group("a", '-', ""), "");
    assert_eq!(expand_group("a", '-', " \t "), "");
}

#[test]
fn tilde_stands_for_the_bare_prefix() {
    assert_eq!(expand_group("a", '-', "~ b c"), "a a-b a-c");
    assert_eq!(expand_group("a", ':', "b ~"), "a:b a");
    assert_eq!(expand_group("a", '-', "~~"), "a-~~");
    assert_eq!(expand_group("a", '-', "~b"), "a-~b");
}

#[test]
fn importance_marker_moves_to_the_front() {
    assert_eq!(expand_group("hover", ':', "!m-2 p-2"), "!hover:m-2 hover:p-2");
    assert_eq!(expand_group("b:c:d", ':', "!a z"), "!b:c:d:a b:c:d:z");
    assert_eq!(expand_group("a", '-', "!"), "!a-");
    assert_eq!(expand_group("a", '-', "!~"), "!a-~");
    assert_eq!(expand_group("a", '-', "b!c"), "a-b!c");
}

#[test]
fn marker_of_the_prefix_stays_with_the_prefix() {
    assert_eq!(expand_group("!hover", ':', "m-2 p-2"), "!hover:m-2 !hover:p-2");
    assert_eq!(expand_group("!hover", ':', "!m-2 p-2"), "!!hover:m-2 !hover:p-2");
}

#[test]
fn prefix_and_member_are_taken_as_they_are() {
    assert_eq!(expand_group("[&$1]", ':', "a $2"), "[&$1]:a [&$1]:$2");
    assert_eq!(expand_group("a", ':', "b?c d"), "a:b?c a:d");
}

#[test]
fn rewrites_the_group_that_a_match_describes() {
    let text = "x hover:(a b) y";
    let captures = vec![found((2, 13), (2, 7), (7, 8), (9, 12))];
    assert_eq!(rewrite_groups(text, &captures), "x hover:a hover:b y");
}

#[test]
fn text_without_matches_is_left_as_it_is() {
    assert_eq!(rewrite_groups("x hover:(a b) y", &vec![]), "x hover:(a b) y");
    assert_eq!(rewrite_groups("a   b ", &vec![]), "a   b ");
    assert_eq!(rewrite_groups("", &vec![]), "");
}

#[test]
fn rewrites_several_groups_from_left_to_right() {
    let text = "[&]:(w-4 h-4) [&]:(w-1 h-1)";
    let captures = vec![
        found((0, 13), (0, 3), (3, 4), (5, 12)),
        found((14, 27), (14, 17), (17, 18), (19, 26)),
    ];
    assert_eq!(rewrite_groups(text, &captures), "[&]:w-4 [&]:h-4 [&]:w-1 [&]:h-1");
}

#[test]
fn byte_ranges_are_counted_in_utf8() {
    // `é` takes two bytes, `世` three.
    let text = "é:(a 世) 世-(b c)";
    let captures = vec![
        found((0, 10), (0, 2), (2, 3), (4, 9)),
        found((11, 20), (11, 14), (14, 15), (16, 19)),
    ];
    assert_eq!(rewrite_groups(text, &captures), "é:a é:世 世-b 世-c");
}

#[test]
fn range_inside_a_character_is_no_group() {
    let text = "é:(a b)";
    let captures = vec![found((1, 8), (1, 2), (2, 3), (4, 7))];
    assert_eq!(rewrite_groups(text, &captures), text);
}

#[test]
fn range_outside_the_text_is_no_group() {
    let text = "a-(b c)";
    assert_eq!(rewrite_groups(text, &vec![found((0, 8), (0, 1), (1, 2), (3, 7))]), text);
    assert_eq!(
        rewrite_groups(text, &vec![found((100, 107), (100, 101), (101, 102), (103, 106))]),
        text
    );
    assert_eq!(
        rewrite_groups(
            text,
            &vec![found(
                (usize::MAX - 7, usize::MAX),
                (usize::MAX - 7, usize::MAX - 6),
                (usize::MAX - 6, usize::MAX - 5),
                (usize::MAX - 4, usize::MAX - 1),
            )]
        ),
        text
    );
}

#[test]
fn match_without_all_four_ranges_is_no_group() {
    let text = "a-(b c)";
    assert_eq!(rewrite_groups(text, &vec![vec![]]), text);
    assert_eq!(rewrite_groups(text, &vec![vec![Some((0, 7))]]), text);
    assert_eq!(
        rewrite_groups(text, &vec![vec![Some((0, 7)), Some((0, 1)), None, Some((3, 6))]]),
        text
    );
    assert_eq!(
        rewrite_groups(
            text,
            &vec![vec![Some((0, 7)), Some((0, 1)), Some((1, 2)), Some((3, 6)), Some((3, 4))]]
        ),
        text
    );
}

#[test]
fn ranges_that_do_not_lie_as_in_a_group_are_no_group() {
    let text = "a-(b c)";
    // The whole match ends before the closing parenthesis.
    assert_eq!(rewrite_groups(text, &vec![found((0, 6), (0, 1), (1, 2), (3, 6))]), text);
    // The prefix does not begin where the match begins.
    assert_eq!(rewrite_groups(text, &vec![found((0, 7), (1, 1), (1, 2), (3, 6))]), text);
    // The separator does not follow the prefix.
    assert_eq!(rewrite_groups(text, &vec![found((0, 7), (0, 1), (2, 3), (4, 6))]), text);
    // The prefix is empty.
    assert_eq!(rewrite_groups("-(b c)", &vec![found((0, 6), (0, 0), (0, 1), (2, 5))]), "-(b c)");
    // The body is empty.
    assert_eq!(rewrite_groups("a-()", &vec![found((0, 4), (0, 1), (1, 2), (3, 3))]), "a-()");
}

#[test]
fn prefix_with_whitespace_is_no_group() {
    let text = "a b-(c d)";
    assert_eq!(rewrite_groups(text, &vec![found((0, 9), (0, 3), (3, 4), (5, 8))]), text);
    assert_eq!(rewrite_groups(text, &vec![found((2, 9), (2, 3), (3, 4), (5, 8))]), "a b-c b-d");
    let text = "a\tb-(c d)";
    assert_eq!(rewrite_groups(text, &vec![found((0, 9), (0, 3), (3, 4), (5, 8))]), text);
}

#[test]
fn other_separators_and_brackets_are_no_group() {
    let captures = vec![found((0, 7), (0, 1), (1, 2), (3, 6))];
    assert_eq!(rewrite_groups("a-(b c)", &captures), "a-b a-c");
    assert_eq!(rewrite_groups("a:(b c)", &captures), "a:b a:c");
    assert_eq!(rewrite_groups("a+(b c)", &captures), "a+(b c)");
    assert_eq!(rewrite_groups("a-[b c)", &captures), "a-[b c)");
    assert_eq!(rewrite_groups("a-(b c]", &captures), "a-(b c]");
}

#[test]
fn match_that_begins_inside_the_last_group_is_passed_over() {
    let text = "a-(b c) d-(e f)";
    let first = found((0, 7), (0, 1), (1, 2), (3, 6));
    let inside = found((5, 15), (5, 9), (9, 10), (11, 14));
    let second = found((8, 15), (8, 9), (9, 10), (11, 14));
    assert_eq!(
        rewrite_groups(text, &vec![first.clone(), inside.clone()]),
        "a-b a-c d-(e f)"
    );
    assert_eq!(
        rewrite_groups(text, &vec![first.clone(), first.clone(), second.clone()]),
        "a-b a-c d-e d-f"
    );
    assert_eq!(rewrite_groups(text, &vec![second, first]), "a-(b c) d-e d-f");
}
