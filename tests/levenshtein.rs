use std::collections::VecDeque;

use morphing_string::compute_edit_sequence;
use morphing_string::Edit;
use morphing_string::Edit::{Delete, Insert, Substitute};

struct Case {
    name: &'static str,
    start: &'static str,
    target: &'static str,
    expected_edits: Vec<Edit>,
}

fn run(start: &str, edits: &VecDeque<Edit>) -> String {
    let mut string = start.to_string();
    for edit in edits.iter() {
        string = edit.apply(&string);
    }
    string
}

#[test]
fn compute_and_apply() {
    let test_cases = &[
        Case {
            name: "empty to empty",
            start: "",
            target: "",
            expected_edits: vec![],
        },
        Case {
            name: "start equal to target",
            start: "abcd",
            target: "abcd",
            expected_edits: vec![],
        },
        Case {
            name: "single insert",
            start: "",
            target: "a",
            expected_edits: vec![Insert { c: 'a', index: 0 }],
        },
        Case {
            name: "single delete",
            start: "a",
            target: "",
            expected_edits: vec![Delete { index: 0 }],
        },
        Case {
            name: "single substitution",
            start: "a",
            target: "b",
            expected_edits: vec![Substitute { c: 'b', index: 0 }],
        },
        Case {
            name: "multiple inserts",
            start: "",
            target: "012",
            expected_edits: vec![
                Insert { c: '0', index: 0 },
                Insert { c: '1', index: 1 },
                Insert { c: '2', index: 2 },
            ],
        },
        Case {
            name: "multiple deletes",
            start: "abc",
            target: "",
            expected_edits: vec![
                Delete { index: 0 },
                Delete { index: 0 },
                Delete { index: 0 },
            ],
        },
        Case {
            name: "multiple substitutions",
            start: "abc",
            target: "012",
            expected_edits: vec![
                Substitute { c: '0', index: 0 },
                Substitute { c: '1', index: 1 },
                Substitute { c: '2', index: 2 },
            ],
        },
        Case {
            name: "indexes account for previous insertions",
            start: "01234",
            target: "x0123a",
            expected_edits: vec![Insert { c: 'x', index: 0 }, Substitute { c: 'a', index: 5 }],
        },
        Case {
            name: "kitten mittens",
            start: "kitten",
            target: "mittens",
            expected_edits: vec![Substitute { c: 'm', index: 0 }, Insert { c: 's', index: 6 }],
        },
        Case {
            name: "mixed insert delete substitute",
            start: "abcdef",
            target: "xazced",
            expected_edits: vec![
                Edit::Insert { c: 'x', index: 0 },
                Edit::Substitute { c: 'z', index: 2 },
                Edit::Delete { index: 4 },
                Edit::Substitute { c: 'd', index: 5 },
            ],
        },
        Case {
            name: "multiple edits",
            start: "sunday",
            target: "saturday",
            expected_edits: vec![
                Edit::Insert { c: 'a', index: 1 },
                Edit::Insert { c: 't', index: 2 },
                Edit::Substitute { c: 'r', index: 4 },
            ],
        },
        Case {
            name: "random garbage",
            start: "daskdas dasd sadjasnd dsdjfh sd fadfbasdjnf",
            target: "nfad ad f sasdkmfpsmdfasM Ksmdnfkdskmnflsokdsfnlsdknffs",
            expected_edits: vec![
                Insert { c: 'n', index: 0 },
                Substitute { c: 'f', index: 1 },
                Insert { c: 'd', index: 3 },
                Substitute { c: ' ', index: 4 },
                Substitute { c: 'a', index: 5 },
                Substitute { c: ' ', index: 7 },
                Substitute { c: 'f', index: 8 },
                Substitute { c: 's', index: 10 },
                Insert { c: 'k', index: 14 },
                Insert { c: 'm', index: 15 },
                Insert { c: 'f', index: 16 },
                Substitute { c: 'p', index: 17 },
                Substitute { c: 'm', index: 19 },
                Substitute { c: 'f', index: 21 },
                Delete { index: 24 },
                Substitute { c: 'M', index: 24 },
                Substitute { c: 'K', index: 26 },
                Insert { c: 'm', index: 28 },
                Substitute { c: 'n', index: 30 },
                Substitute { c: 'k', index: 32 },
                Substitute { c: 'd', index: 33 },
                Insert { c: 'k', index: 35 },
                Substitute { c: 'm', index: 36 },
                Substitute { c: 'n', index: 37 },
                Insert { c: 'l', index: 39 },
                Insert { c: 's', index: 40 },
                Insert { c: 'o', index: 41 },
                Substitute { c: 'k', index: 42 },
                Insert { c: 's', index: 44 },
                Substitute { c: 'n', index: 46 },
                Substitute { c: 'l', index: 47 },
                Substitute { c: 'k', index: 50 },
                Insert { c: 'f', index: 52 },
                Insert { c: 's', index: 54 },
            ],
        },
    ];

    for Case {
        name,
        start,
        target,
        expected_edits,
    } in test_cases.iter()
    {
        let edits = compute_edit_sequence(start, target);
        assert_eq!(edits, *expected_edits, "{name}: edits match expectation");

        let mut string = start.to_string();
        for edit in edits {
            string = edit.apply(&string);
        }

        assert_eq!(
            &string, target,
            "{name}: edits applied to start produce target",
        );
    }
}

#[test]
fn empty_to_empty_is_empty() {
    assert!(compute_edit_sequence("", "").is_empty());
}

#[test]
fn single_char_to_empty_is_one_delete() {
    assert_eq!(compute_edit_sequence("a", ""), vec![Delete { index: 0 }]);
}

#[test]
fn kitten_to_mittens() {
    let edits = compute_edit_sequence("kitten", "mittens");
    assert_eq!(edits, vec![Substitute { c: 'm', index: 0 }, Insert { c: 's', index: 6 }]);
    assert_eq!(run("kitten", &edits), "mittens");
}

#[test]
fn sunday_to_saturday() {
    let edits = compute_edit_sequence("sunday", "saturday");
    assert_eq!(
        edits,
        vec![
            Insert { c: 'a', index: 1 },
            Insert { c: 't', index: 2 },
            Substitute { c: 'r', index: 4 },
        ]
    );
    assert_eq!(run("sunday", &edits), "saturday");
}

#[test]
fn length_is_levenshtein_distance() {
    assert_eq!(compute_edit_sequence("kitten", "sitting").len(), 3);
    assert_eq!(compute_edit_sequence("flaw", "lawn").len(), 2);
    assert_eq!(compute_edit_sequence("", "abc").len(), 3);
    assert_eq!(compute_edit_sequence("abc", "").len(), 3);
    assert_eq!(compute_edit_sequence("abc", "abc").len(), 0);
}

#[test]
fn equal_strings_need_no_edits() {
    assert!(compute_edit_sequence("héllo wörld", "héllo wörld").is_empty());
    assert!(compute_edit_sequence("x", "x").is_empty());
}

#[test]
fn round_trip_on_several_pairs() {
    let pairs = [
        ("", "abc"),
        ("abc", ""),
        ("intention", "execution"),
        ("ab", "ba"),
        ("aaaa", "aa"),
        ("héllo", "hallo!"),
        ("日本語", "本語日"),
    ];
    for (s, t) in pairs.iter() {
        let edits = compute_edit_sequence(s, t);
        assert_eq!(run(s, &edits), *t);
    }
}

#[test]
fn same_pair_gives_same_edits() {
    let first = compute_edit_sequence("intention", "execution");
    let second = compute_edit_sequence("intention", "execution");
    assert_eq!(first, second);
}

#[test]
fn ties_prefer_substitution_then_insertion() {
    assert_eq!(compute_edit_sequence("a", "b"), vec![Substitute { c: 'b', index: 0 }]);
    assert_eq!(
        compute_edit_sequence("ab", "ba"),
        vec![Substitute { c: 'b', index: 0 }, Substitute { c: 'a', index: 1 }]
    );
}

#[test]
fn indices_stay_in_range_while_applied() {
    let start = "daskdas dasd sadjasnd";
    let edits = compute_edit_sequence(start, "nfad ad f sasdkmfpsmdfasM");
    let mut len = start.chars().count();
    for edit in edits.iter() {
        match *edit {
            Insert { index, .. } => {
                assert!(index <= len);
                len += 1;
            }
            Delete { index } => {
                assert!(index < len);
                len -= 1;
            }
            Substitute { index, .. } => {
                assert!(index < len);
            }
        }
    }
}

#[test]
fn apply_insert() {
    assert_eq!(Insert { c: 'x', index: 0 }.apply("abc"), "xabc");
    assert_eq!(Insert { c: 'x', index: 3 }.apply("abc"), "abcx");
    assert_eq!(Insert { c: 'x', index: 0 }.apply(""), "x");
}

#[test]
fn apply_delete() {
    assert_eq!(Delete { index: 1 }.apply("abc"), "ac");
    assert_eq!(Delete { index: 0 }.apply("a"), "");
}

#[test]
fn apply_substitute() {
    assert_eq!(Substitute { c: 'z', index: 2 }.apply("abc"), "abz");
}

#[test]
fn apply_counts_characters_not_bytes() {
    assert_eq!(Substitute { c: 'e', index: 1 }.apply("héllo"), "hello");
    assert_eq!(Delete { index: 1 }.apply("日本語"), "日語");
    assert_eq!(Insert { c: 'ö', index: 2 }.apply("wrld"), "wröld");
}
