use built_different::apply::{
    apply, apply_lines, apply_with, is_applied, is_applied_with, lines_match_at, locate_lines,
    ApplyError, ApplyOptions, DEFAULT_FUZZ_WINDOW,
};
use built_different::diff::{check_transforms, checked_diff, diff, replacement_patch};
use built_different::lines::{join_lines, same_bytes, split_lines};
use built_different::parse::parse;
use built_different::patch::{Hunk, Line, LineKind, Patch};
use built_different::serialize::serialize;

fn line(kind: LineKind, text: &str) -> Line {
    Line { kind, text: text.as_bytes().to_vec() }
}

fn context(text: &str) -> Line {
    line(LineKind::Context, text)
}

fn deletion(text: &str) -> Line {
    line(LineKind::Deletion, text)
}

fn insertion(text: &str) -> Line {
    line(LineKind::Insertion, text)
}

fn lines_of(texts: &[&str]) -> Vec<Vec<u8>> {
    texts.iter().map(|text| text.as_bytes().to_vec()).collect()
}

fn labels() -> (Option<Vec<u8>>, Option<Vec<u8>>) {
    (Some(b"original".to_vec()), Some(b"modified".to_vec()))
}

fn patch_of(hunks: Vec<Hunk>) -> Patch {
    let (original, modified) = labels();
    Patch { original, modified, hunks }
}

/// The hunk that replaces `b` by `X` between `a` and `c`, declared at line
/// `start`.
fn replace_b_at(start: usize) -> Hunk {
    Hunk {
        original_start: start,
        original_len: 3,
        modified_start: start,
        modified_len: 3,
        lines: vec![context("a\n"), deletion("b\n"), insertion("X\n"), context("c\n")],
    }
}

fn numbered(count: usize) -> String {
    (1..=count).map(|n| format!("line {n}\n")).collect()
}

#[test]
fn replaced_line_gives_one_hunk_with_context() {
    let patch = diff(b"a\nb\nc\n", b"a\nX\nc\n");
    assert_eq!(patch, patch_of(vec![replace_b_at(1)]));
    let text = serialize(&patch);
    assert_eq!(
        String::from_utf8(text.clone()).unwrap(),
        "--- original\n+++ modified\n@@ -1,3 +1,3 @@\n a\n-b\n+X\n c\n"
    );
    assert_eq!(apply(&patch, b"a\nb\nc\n").unwrap(), b"a\nX\nc\n".to_vec());
    assert_eq!(apply(&patch, b"a\nb\nc\nd\n").unwrap(), b"a\nX\nc\nd\n".to_vec());
    assert_eq!(parse(&text).unwrap(), patch);
}

#[test]
fn equal_buffers_give_no_hunks() {
    for text in ["", "a\n", "a\nb", "\n\n\n"] {
        let patch = diff(text.as_bytes(), text.as_bytes());
        assert_eq!(patch, patch_of(vec![]));
        assert_eq!(apply(&patch, text.as_bytes()).unwrap(), text.as_bytes().to_vec());
    }
}

#[test]
fn patch_without_hunks_changes_nothing() {
    let patch = Patch { original: None, modified: None, hunks: vec![] };
    assert_eq!(apply(&patch, b"x\ny").unwrap(), b"x\ny".to_vec());
    assert_eq!(apply(&patch, b"").unwrap(), Vec::<u8>::new());
}

#[test]
fn diff_then_apply_gives_the_modified_buffer() {
    let texts = [
        "",
        "a\n",
        "a",
        "a\nb\nc\n",
        "a\nb\nc",
        "a\n\nb\n\nc\n",
        "x\r\ny\r\n",
        "one\ntwo\nthree\nfour\nfive\nsix\nseven\neight\nnine\nten\n",
        "one\ntwo\n3\nfour\nfive\nsix\nseven\neight\nnine\n10\neleven\n",
        "\n",
        "\n\n",
        "b\nc\n",
        "a\nb\n",
    ];
    for original in texts {
        for modified in texts {
            let patch = diff(original.as_bytes(), modified.as_bytes());
            assert_eq!(
                apply(&patch, original.as_bytes()),
                Ok(modified.as_bytes().to_vec()),
                "from {original:?} to {modified:?}"
            );
            let read_back = parse(&serialize(&patch)).unwrap();
            assert_eq!(read_back, patch, "from {original:?} to {modified:?}");
            assert!(is_applied(&patch, original.as_bytes(), modified.as_bytes()));
            assert!(check_transforms(
                &patch,
                &split_lines(original.as_bytes()),
                &split_lines(modified.as_bytes())
            ));
        }
    }
}

#[test]
fn distant_changes_give_two_hunks() {
    let original = numbered(20);
    let modified = original.replace("line 2\n", "second\n").replace("line 18\n", "eighteenth\n");
    let patch = diff(original.as_bytes(), modified.as_bytes());
    assert_eq!(patch.hunks.len(), 2);
    let first = &patch.hunks[0];
    assert_eq!(
        (first.original_start, first.original_len, first.modified_start, first.modified_len),
        (1, 5, 1, 5)
    );
    assert_eq!(
        first.lines,
        vec![
            context("line 1\n"),
            deletion("line 2\n"),
            insertion("second\n"),
            context("line 3\n"),
            context("line 4\n"),
            context("line 5\n"),
        ]
    );
    let second = &patch.hunks[1];
    assert_eq!(
        (second.original_start, second.original_len, second.modified_start, second.modified_len),
        (15, 6, 15, 6)
    );
    assert_eq!(apply(&patch, original.as_bytes()).unwrap(), modified.as_bytes().to_vec());
}

#[test]
fn near_changes_share_one_hunk() {
    let original = numbered(12);
    let modified = original.replace("line 4\n", "four\n").replace("line 8\n", "eight\n");
    let patch = diff(original.as_bytes(), modified.as_bytes());
    assert_eq!(patch.hunks.len(), 1);
    let hunk = &patch.hunks[0];
    assert_eq!(
        (hunk.original_start, hunk.original_len, hunk.modified_start, hunk.modified_len),
        (1, 11, 1, 11)
    );
}

#[test]
fn added_and_removed_lines_shift_the_modified_range() {
    let original = numbered(20);
    let modified = original
        .replace("line 2\n", "line 2\nextra a\nextra b\n")
        .replace("line 18\n", "");
    let patch = diff(original.as_bytes(), modified.as_bytes());
    assert_eq!(patch.hunks.len(), 2);
    let first = &patch.hunks[0];
    assert_eq!(
        (first.original_start, first.original_len, first.modified_start, first.modified_len),
        (1, 5, 1, 7)
    );
    let second = &patch.hunks[1];
    assert_eq!(
        (second.original_start, second.original_len, second.modified_start, second.modified_len),
        (15, 6, 17, 5)
    );
    assert_eq!(apply(&patch, original.as_bytes()).unwrap(), modified.as_bytes().to_vec());
}

#[test]
fn filling_an_empty_buffer_starts_at_line_zero() {
    let patch = diff(b"", b"a\nb\n");
    assert_eq!(
        patch,
        patch_of(vec![Hunk {
            original_start: 0,
            original_len: 0,
            modified_start: 1,
            modified_len: 2,
            lines: vec![insertion("a\n"), insertion("b\n")],
        }])
    );
    assert_eq!(patch.hunks[0].original_offset(), 0);
    assert_eq!(patch.hunks[0].modified_offset(), 0);
    let emptied = diff(b"a\nb\n", b"");
    assert_eq!(
        emptied,
        patch_of(vec![Hunk {
            original_start: 1,
            original_len: 2,
            modified_start: 0,
            modified_len: 0,
            lines: vec![deletion("a\n"), deletion("b\n")],
        }])
    );
    assert_eq!(apply(&emptied, b"a\nb\n").unwrap(), Vec::<u8>::new());
}

#[test]
fn missing_final_newline_is_kept() {
    let patch = diff(b"a\nb", b"a\nb\n");
    assert_eq!(
        patch,
        patch_of(vec![Hunk {
            original_start: 1,
            original_len: 2,
            modified_start: 1,
            modified_len: 2,
            lines: vec![context("a\n"), deletion("b"), insertion("b\n")],
        }])
    );
    assert_eq!(
        String::from_utf8(serialize(&patch)).unwrap(),
        "--- original\n+++ modified\n@@ -1,2 +1,2 @@\n a\n-b\n\\ No newline at end of file\n+b\n"
    );
    assert_eq!(apply(&patch, b"a\nb").unwrap(), b"a\nb\n".to_vec());
    let back = diff(b"a\nb\n", b"a\nb");
    assert_eq!(apply(&back, b"a\nb\n").unwrap(), b"a\nb".to_vec());
    assert_eq!(apply(&back, b"a\nb"), Err(ApplyError::HunkMismatch {
        hunk: 0,
        expected: lines_of(&["a\n", "b\n"]),
        found: lines_of(&["a\n", "b"]),
    }));
}

#[test]
fn sides_of_a_hunk() {
    let hunk = replace_b_at(1);
    assert_eq!(hunk.original_side(), lines_of(&["a\n", "b\n", "c\n"]));
    assert_eq!(hunk.modified_side(), lines_of(&["a\n", "X\n", "c\n"]));
    assert_eq!(hunk.original_offset(), 0);
    assert_eq!(replace_b_at(7).original_offset(), 6);
    assert_eq!(replace_b_at(7).modified_offset(), 6);
    assert_eq!(replace_b_at(0).original_offset(), 0);
}

#[test]
fn applied_only_for_the_modified_buffer() {
    let patch = diff(b"a\nb\nc\n", b"a\nX\nc\n");
    assert!(is_applied(&patch, b"a\nb\nc\n", b"a\nX\nc\n"));
    assert!(!is_applied(&patch, b"a\nb\nc\n", b"a\nX\nc"));
    assert!(!is_applied(&patch, b"a\nb\nc\n", b"a\nb\nc\n"));
    assert!(!is_applied(&patch, b"a\nb\nc\n", b""));
    // A patch that does not apply is not applied.
    assert!(!is_applied(&patch, b"q\n", b"q\n"));
    assert!(!is_applied_with(&patch, b"q\n", b"q\n", &ApplyOptions::with_fuzz_window(100)));
}

#[test]
fn default_window_is_three_lines() {
    assert_eq!(DEFAULT_FUZZ_WINDOW, 3);
    assert_eq!(ApplyOptions::new().fuzz_window, 3);
    assert_eq!(ApplyOptions::with_fuzz_window(9).fuzz_window, 9);
}

#[test]
fn shift_within_the_window_still_applies() {
    let patch = patch_of(vec![replace_b_at(1)]);
    for shift in 0..=3usize {
        let lead: String = (0..shift).map(|n| format!("new {n}\n")).collect();
        let original = format!("{lead}a\nb\nc\nrest\n");
        let expected = format!("{lead}a\nX\nc\nrest\n");
        assert_eq!(apply(&patch, original.as_bytes()), Ok(expected.into_bytes()), "shift {shift}");
    }
}

#[test]
fn shift_beyond_the_window_fails_with_mismatch() {
    let patch = patch_of(vec![replace_b_at(1)]);
    let original = b"n0\nn1\nn2\nn3\na\nb\nc\n";
    assert_eq!(
        apply(&patch, original),
        Err(ApplyError::HunkMismatch {
            hunk: 0,
            expected: lines_of(&["a\n", "b\n", "c\n"]),
            found: lines_of(&["n0\n", "n1\n", "n2\n"]),
        })
    );
    assert_eq!(
        apply_with(&patch, original, &ApplyOptions::with_fuzz_window(4)),
        Ok(b"n0\nn1\nn2\nn3\na\nX\nc\n".to_vec())
    );
    assert!(apply_with(&patch, original, &ApplyOptions::with_fuzz_window(0)).is_err());
}

#[test]
fn shift_towards_the_start_is_searched_too() {
    let patch = patch_of(vec![replace_b_at(5)]);
    // Expected at index 4, found at index 1: three lines earlier.
    assert_eq!(apply(&patch, b"p\na\nb\nc\nq\n"), Ok(b"p\na\nX\nc\nq\n".to_vec()));
    // Expected at index 4, found at index 0: four lines earlier.
    assert!(apply(&patch, b"a\nb\nc\nq\n").is_err());
    assert_eq!(
        apply_with(&patch, b"a\nb\nc\nq\n", &ApplyOptions::with_fuzz_window(4)),
        Ok(b"a\nX\nc\nq\n".to_vec())
    );
}

#[test]
fn nearest_place_wins_and_earlier_on_a_tie() {
    let original = lines_of(&["a\n", "b\n", "c\n", "-\n", "a\n", "b\n", "c\n", "-\n", "a\n", "b\n", "c\n"]);
    let wanted = lines_of(&["a\n", "b\n", "c\n"]);
    assert_eq!(locate_lines(&original, &wanted, 4, 0, 3), Some(4));
    assert_eq!(locate_lines(&original, &wanted, 5, 0, 3), Some(4));
    assert_eq!(locate_lines(&original, &wanted, 3, 0, 3), Some(4));
    assert_eq!(locate_lines(&original, &wanted, 2, 0, 3), Some(0));
    assert_eq!(locate_lines(&original, &wanted, 6, 0, 3), Some(4));
    // Two places at the same distance: the earlier one.
    assert_eq!(locate_lines(&original, &wanted, 6, 0, 2), Some(4));
    assert_eq!(locate_lines(&original, &wanted, 2, 0, 2), Some(0));
    assert_eq!(locate_lines(&original, &wanted, 6, 5, 2), Some(8));
    assert_eq!(locate_lines(&original, &wanted, 6, 5, 1), None);
    assert_eq!(locate_lines(&original, &wanted, 2, 1, 1), None);
    assert_eq!(locate_lines(&original, &wanted, 100, 0, 3), None);
    assert_eq!(locate_lines(&original, &wanted, 100, 0, usize::MAX), Some(8));
    assert_eq!(locate_lines(&original, &wanted, usize::MAX, 0, usize::MAX), Some(8));
    assert_eq!(locate_lines(&wanted, &original, 0, 0, usize::MAX), None);
    assert!(lines_match_at(&original, &wanted, 8));
    assert!(!lines_match_at(&original, &wanted, 9));
    assert!(!lines_match_at(&original, &wanted, usize::MAX));
}

#[test]
fn empty_side_is_found_at_its_expected_place() {
    let original = lines_of(&["a\n", "b\n"]);
    assert_eq!(locate_lines(&original, &vec![], 1, 0, 0), Some(1));
    assert_eq!(locate_lines(&original, &vec![], 2, 0, 0), Some(2));
    assert_eq!(locate_lines(&original, &vec![], 3, 0, 0), None);
    assert_eq!(locate_lines(&original, &vec![], 3, 0, 1), Some(2));
}

#[test]
fn a_failing_hunk_fails_the_whole_call() {
    let patch = patch_of(vec![
        replace_b_at(1),
        Hunk {
            original_start: 5,
            original_len: 1,
            modified_start: 5,
            modified_len: 1,
            lines: vec![deletion("z\n"), insertion("Z\n")],
        },
    ]);
    assert_eq!(
        apply(&patch, b"a\nb\nc\nd\ne\nf\n"),
        Err(ApplyError::HunkMismatch {
            hunk: 1,
            expected: lines_of(&["z\n"]),
            found: lines_of(&["e\n"]),
        })
    );
    assert_eq!(apply(&patch, b"a\nb\nc\nd\nz\nf\n"), Ok(b"a\nX\nc\nd\nZ\nf\n".to_vec()));
}

#[test]
fn a_hunk_is_not_placed_before_the_one_before_it() {
    let patch = patch_of(vec![replace_b_at(4), replace_b_at(1)]);
    let original = b"a\nb\nc\na\nb\nc\n";
    assert_eq!(
        apply(&patch, original),
        Err(ApplyError::HunkMismatch {
            hunk: 1,
            expected: lines_of(&["a\n", "b\n", "c\n"]),
            found: lines_of(&["a\n", "b\n", "c\n"]),
        })
    );
    let ordered = patch_of(vec![replace_b_at(1), replace_b_at(4)]);
    assert_eq!(apply(&ordered, original), Ok(b"a\nX\nc\na\nX\nc\n".to_vec()));
}

#[test]
fn mismatch_reports_what_stands_at_the_expected_place() {
    let patch = patch_of(vec![replace_b_at(9)]);
    assert_eq!(
        apply(&patch, b"x\ny\n"),
        Err(ApplyError::HunkMismatch {
            hunk: 0,
            expected: lines_of(&["a\n", "b\n", "c\n"]),
            found: vec![],
        })
    );
    let near_end = patch_of(vec![replace_b_at(2)]);
    assert_eq!(
        apply(&near_end, b"x\ny\n"),
        Err(ApplyError::HunkMismatch {
            hunk: 0,
            expected: lines_of(&["a\n", "b\n", "c\n"]),
            found: lines_of(&["y\n"]),
        })
    );
}

#[test]
fn apply_lines_works_on_lines() {
    let patch = patch_of(vec![replace_b_at(1)]);
    assert_eq!(
        apply_lines(&patch, &lines_of(&["a\n", "b\n", "c\n", "d"]), 0),
        Ok(lines_of(&["a\n", "X\n", "c\n", "d"]))
    );
}

#[test]
fn lines_keep_their_terminators() {
    assert_eq!(split_lines(b""), Vec::<Vec<u8>>::new());
    assert_eq!(split_lines(b"a"), lines_of(&["a"]));
    assert_eq!(split_lines(b"a\n"), lines_of(&["a\n"]));
    assert_eq!(split_lines(b"a\n\nb\r\nc"), lines_of(&["a\n", "\n", "b\r\n", "c"]));
    assert_eq!(split_lines(b"\n"), lines_of(&["\n"]));
    assert_eq!(join_lines(&lines_of(&["a\n", "\n", "b\r\n", "c"])), b"a\n\nb\r\nc".to_vec());
    assert_eq!(join_lines(&vec![]), Vec::<u8>::new());
    assert!(same_bytes(b"ab", b"ab"));
    assert!(!same_bytes(b"ab", b"ac"));
    assert!(!same_bytes(b"ab", b"abc"));
}

#[test]
fn candidate_that_is_no_patch_is_replaced() {
    let expected = patch_of(vec![Hunk {
        original_start: 1,
        original_len: 2,
        modified_start: 1,
        modified_len: 1,
        lines: vec![deletion("a\n"), deletion("b\n"), insertion("c\n")],
    }]);
    assert_eq!(checked_diff(b"garbage", b"a\nb\n", b"c\n"), expected);
    // A patch between other buffers is no better.
    let other = serialize(&diff(b"a\nb\nc\n", b"a\nX\nc\n"));
    assert_eq!(checked_diff(&other, b"a\nb\n", b"c\n"), expected);
    assert_eq!(apply(&expected, b"a\nb\n"), Ok(b"c\n".to_vec()));
}

#[test]
fn candidate_that_fits_is_kept() {
    let candidate = b"--- left\n+++ right\n@@ -2 +2 @@\n-b\n+X\n";
    let patch = checked_diff(candidate, b"a\nb\nc\n", b"a\nX\nc\n");
    assert_eq!(
        patch,
        Patch {
            original: Some(b"left".to_vec()),
            modified: Some(b"right".to_vec()),
            hunks: vec![Hunk {
                original_start: 2,
                original_len: 1,
                modified_start: 2,
                modified_len: 1,
                lines: vec![deletion("b\n"), insertion("X\n")],
            }],
        }
    );
}

#[test]
fn replacement_of_one_buffer_by_another() {
    assert_eq!(replacement_patch(&vec![], &vec![]), patch_of(vec![]));
    assert_eq!(
        replacement_patch(&vec![], &lines_of(&["a"])),
        patch_of(vec![Hunk {
            original_start: 0,
            original_len: 0,
            modified_start: 1,
            modified_len: 1,
            lines: vec![insertion("a")],
        }])
    );
    let both = replacement_patch(&lines_of(&["a\n", "b"]), &lines_of(&["c\n"]));
    assert_eq!(apply(&both, b"a\nb"), Ok(b"c\n".to_vec()));
    assert!(check_transforms(&both, &lines_of(&["a\n", "b"]), &lines_of(&["c\n"])));
}

#[test]
fn transforms_is_checked_against_both_buffers() {
    let patch = patch_of(vec![replace_b_at(1)]);
    let from = lines_of(&["a\n", "b\n", "c\n", "d\n"]);
    let to = lines_of(&["a\n", "X\n", "c\n", "d\n"]);
    assert!(check_transforms(&patch, &from, &to));
    assert!(!check_transforms(&patch, &from, &from));
    assert!(!check_transforms(&patch, &to, &to));
    assert!(!check_transforms(&patch, &from, &lines_of(&["a\n", "X\n", "c\n"])));
    assert!(!check_transforms(&patch, &lines_of(&["q\n", "a\n", "b\n", "c\n"]), &to));
    let wrong_count = patch_of(vec![Hunk { original_len: 2, ..replace_b_at(1) }]);
    assert!(!check_transforms(&wrong_count, &from, &to));
    assert!(check_transforms(&patch_of(vec![]), &from, &from));
    assert!(!check_transforms(&patch_of(vec![]), &from, &to));
}
