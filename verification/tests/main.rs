use classes::prelude::{Class, Classes};
use variant_group_transformer::transform;

/// Joins the fragments that are present and not empty with single spaces.
fn joined(fragments: Vec<Class>) -> String {
    let mut classes = Classes::new();
    for fragment in fragments {
        classes.add(fragment);
    }
    classes.collect()
}

/// A string literal among the fragments: expanded before it is joined.
fn lit(text: &str) -> Class {
    transform(text).into()
}

/// The fragments joined, and the joined text expanded once more.
fn both(fragments: Vec<Class>) -> (String, String) {
    let first = joined(fragments);
    let second = transform(&first);
    (first, second)
}

fn transformer_cases() -> Vec<(Vec<Class>, &'static str)> {
    vec![
        (
            vec![lit("hover:(bg-gray-400 font-medium)"), lit("font-(light mono)")],
            "hover:bg-gray-400 hover:font-medium font-light font-mono",
        ),
        (
            vec![lit("a1 a2:(b1 b2:(c1 c2-(d1 d2) c3) b3) a3")],
            "a1 a2:b1 a2:b2:c1 a2:b2:c2-d1 a2:b2:c2-d2 a2:b2:c3 a2:b3 a3",
        ),
        (
            vec![lit("bg-white font-light sm:hover:(bg-gray-100 font-medium)")],
            "bg-white font-light sm:hover:bg-gray-100 sm:hover:font-medium",
        ),
        (vec![lit("lt-sm:hover:(p-1 p-2)")], "lt-sm:hover:p-1 lt-sm:hover:p-2"),
        (vec![lit("<sm:hover:(p-1 p-2)")], "<sm:hover:p-1 <sm:hover:p-2"),
        (vec![lit("sm:(p-1 p-2)")], "sm:p-1 sm:p-2"),
        (vec![lit("dark:lg:(p-1 p-2)")], "dark:lg:p-1 dark:lg:p-2"),
        (vec![lit("at-lg:(p-1 p-2)")], "at-lg:p-1 at-lg:p-2"),
        (vec![lit("md:(w-40vw pr-4.5rem)")], "md:w-40vw md:pr-4.5rem"),
        (
            vec![lit("lt-md:(grid grid-cols-[1fr,50%])")],
            "lt-md:grid lt-md:grid-cols-[1fr,50%]",
        ),
        (
            vec![lit("<md:(grid grid-cols-[1fr,50%])")],
            "<md:grid <md:grid-cols-[1fr,50%]",
        ),
        (vec![lit("!hover:(m-2 p-2)")], "!hover:m-2 !hover:p-2"),
        (vec![lit("hover:(\n!m-2\np-2\n)")], "!hover:m-2 hover:p-2"),
        (vec![lit("hover:(\n!m-2 \np-2\n)")], "!hover:m-2 hover:p-2"),
        (
            vec![lit("md:(w-1/2 h-[calc(100%-4rem)])")],
            "md:w-1/2 md:h-[calc(100%-4rem)]",
        ),
        (
            vec![lit("[&]:(w-4 h-4) [&]:(w-4 h-4)")],
            "[&]:w-4 [&]:h-4 [&]:w-4 [&]:h-4",
        ),
        (vec![lit("")], ""),
        (vec![lit("a b c")], "a b c"),
        (vec![lit("a:b:c")], "a:b:c"),
        (vec![lit("hello a:(b c) c:(a:b d)")], "hello a:b a:c c:a:b c:d"),
        (vec![lit("b:c:d:(!a z)")], "!b:c:d:a b:c:d:z"),
        (vec![lit("a-(b c) c-(a:b d)")], "a-b a-c c-a:b c-d"),
        (vec![lit("a-(~ b c)")], "a a-b a-c"),
        (vec![lit("a-(b c-(d e f))")], "a-b a-c-d a-c-e a-c-f"),
        (vec![lit("a-( ~ b c )")], "a a-b a-c"),
        (
            vec![lit("b:[&:not(c)]:d:(!a z)")],
            "!b:[&:not(c)]:d:a b:[&:not(c)]:d:z",
        ),
        (vec![lit("[&]:(a-b c-d)")], "[&]:a-b [&]:c-d"),
        (vec![lit("  a:(b:(c-d d-c)) ")], "a:b:c-d a:b:d-c"),
        (vec![lit("@a:(c-d d-c)")], "@a:c-d @a:d-c"),
        (vec![lit("!@a:(c-d d-c)")], "!@a:c-d !@a:d-c"),
        (vec![lit("a:(b?c d)")], "a:b?c a:d"),
    ]
}

fn whitespace_cases() -> Vec<(Vec<Class>, &'static str)> {
    vec![
        (
            vec![lit(" \n \t text-(red\nlg:(sm blue)) \tm-(t1\n\t r-2)  \n ")],
            "text-red text-lg:sm text-lg:blue m-t1 m-r-2",
        ),
        (
            vec![lit(
                r"p-(x4 y5)
text-red
    text-lg
            sm:fw300
                m-(t1 r-2)",
            )],
            "p-x4 p-y5 text-red text-lg sm:fw300 m-t1 m-r-2",
        ),
    ]
}

#[test]
fn mimics_original_transformer_behavior() {
    for (fragments, expected_result) in transformer_cases() {
        assert_eq!(joined(fragments), expected_result);
    }
}

#[test]
fn main_mimics_original_transformer_behavior() {
    for (fragments, expected_result) in transformer_cases() {
        let (uno_result, to_uno_result) = both(fragments);
        assert_eq!(uno_result, expected_result);
        assert_eq!(to_uno_result, expected_result);
    }
}

#[test]
fn transforms_inconsistent_whitespaces() {
    for (fragments, expected_result) in whitespace_cases() {
        assert_eq!(joined(fragments), expected_result);
    }
}

#[test]
fn main_transforms_inconsistent_whitespaces() {
    for (fragments, expected_result) in whitespace_cases() {
        let (uno_result, to_uno_result) = both(fragments);
        assert_eq!(uno_result, expected_result);
        assert_eq!(to_uno_result, expected_result);
    }
}

#[test]
fn mimics_original_classes_behavior() {
    let cases = vec![
        (
            vec!["button".to_string().into(), lit("button--disabled")],
            "button button--disabled",
        ),
        (
            vec![
                Some("button--active").into(),
                None::<String>.into(),
                Some("button--disabled".to_string()).into(),
            ],
            "button--active button--disabled",
        ),
        (
            vec![
                ("concatenated".to_string() + "-class").into(),
                Some("batman").map(|_| "bruce-wayne").into(),
            ],
            "concatenated-class bruce-wayne",
        ),
        (
            vec![lit("button"), lit(""), lit("button--active")],
            "button button--active",
        ),
        (
            vec![lit("button"), "".to_string().into(), lit("button--active")],
            "button button--active",
        ),
        (
            vec![lit("button"), Some("").into(), lit("button--active")],
            "button button--active",
        ),
    ];

    for (fragments, expected_result) in cases {
        assert_eq!(joined(fragments), expected_result);
    }
}

/// The fragments whose condition holds.
fn gated(fragments: Vec<(Class, bool)>) -> Vec<Class> {
    let mut kept = Vec::new();
    for (fragment, wanted) in fragments {
        if wanted {
            kept.push(fragment);
        }
    }
    kept
}

#[test]
fn main_mimics_original_classes_behavior() {
    const DISABLED: bool = true;
    let cases = vec![
        (
            vec!["button".to_string().into(), lit("button--disabled")],
            "button button--disabled",
        ),
        (
            vec![
                Some("button--active").into(),
                None::<String>.into(),
                Some("button--disabled".to_string()).into(),
            ],
            "button--active button--disabled",
        ),
        (
            vec![
                ("concatenated".to_string() + "-class").into(),
                Some("batman").map(|_| "bruce-wayne").into(),
            ],
            "concatenated-class bruce-wayne",
        ),
        (
            gated(vec![
                (lit("button"), true),
                (lit("button--disabled"), DISABLED),
                (lit("button--active"), false),
                (lit("all-the-buttons"), 42 > 3),
            ]),
            "button button--disabled all-the-buttons",
        ),
        (
            gated(vec![
                (lit("button"), true),
                (Some("button--disabled").into(), true),
                (None::<String>.into(), true),
                (lit("button--primary"), true),
            ]),
            "button button--disabled button--primary",
        ),
        (
            vec![lit("button"), lit(""), lit("button--active")],
            "button button--active",
        ),
        (
            vec![lit("button"), "".to_string().into(), lit("button--active")],
            "button button--active",
        ),
        (
            vec![lit("button"), Some("").into(), lit("button--active")],
            "button button--active",
        ),
    ];

    for (fragments, expected_result) in cases {
        let (uno_result, to_uno_result) = both(fragments);
        assert_eq!(uno_result, expected_result);
        assert_eq!(to_uno_result, expected_result);
    }
}

#[test]
fn mixed_scenario() {
    const BOOL: bool = true;
    const USIZE: usize = 123;
    let some_string: Option<String> = Some("text-black".to_string());

    let cases = vec![
        (
            gated(vec![
                ("text-sm".to_string().into(), true),
                (lit("text-(red nowrap)"), BOOL),
            ]),
            "text-sm text-red text-nowrap",
        ),
        (
            gated(vec![
                (lit("text-(red nowrap)"), USIZE == 123),
                (some_string.clone().into(), true),
            ]),
            "text-red text-nowrap text-black",
        ),
        (
            vec![
                lit("hover:(bg-gray-400 font-medium)"),
                lit(""),
                None::<String>.into(),
                lit("font-(light mono)"),
                lit(""),
            ],
            "hover:bg-gray-400 hover:font-medium font-light font-mono",
        ),
    ];

    for (fragments, expected_result) in cases {
        let (uno_result, to_uno_result) = both(fragments);
        assert_eq!(uno_result, expected_result);
        assert_eq!(to_uno_result, expected_result);
    }
}
