use built_different::format::ParseError;
use built_different::parse::{parse, parse_lines};
use built_different::patch::{Hunk, Line, LineKind, Patch};
use built_different::serialize::serialize;

fn tagged(kind: LineKind, text: &str) -> Line {
    Line { kind, text: text.as_bytes().to_vec() }
}

fn one_hunk(lines: Vec<Line>, ranges: (usize, usize, usize, usize)) -> Patch {
    Patch {
        original: Some(b"a/file".to_vec()),
        modified: Some(b"b/file".to_vec()),
        hunks: vec![Hunk {
            original_start: ranges.0,
            original_len: ranges.1,
            modified_start: ranges.2,
            modified_len: ranges.3,
            lines,
        }],
    }
}

#[test]
fn written_form_is_the_unified_format() {
    let patch = Patch {
        original: Some(b"old name".to_vec()),
        modified: Some(b"new name".to_vec()),
        hunks: vec![
            Hunk {
                original_start: 1,
                original_len: 1,
                modified_start: 1,
                modified_len: 2,
                lines: vec![tagged(LineKind::Context, "\n"), tagged(LineKind::Insertion, "x\n")],
            },
            Hunk {
                original_start: 120,
                original_len: 2,
                modified_start: 121,
                modified_len: 1,
                lines: vec![
                    tagged(LineKind::Deletion, "y\n"),
                    tagged(LineKind::Deletion, "z"),
                    tagged(LineKind::Insertion, ""),
                ],
            },
        ],
    };
    let expected = "--- old name\n+++ new name\n@@ -1,1 +1,2 @@\n \n+x\n@@ -120,2 +121,1 @@\n-y\n-z\n\\ No newline at end of file\n+\n\\ No newline at end of file\n";
    assert_eq!(String::from_utf8(serialize(&patch)).unwrap(), expected);
    assert_eq!(parse(expected.as_bytes()), Ok(patch));
}

#[test]
fn labels_are_optional() {
    let mut patch = one_hunk(vec![tagged(LineKind::Insertion, "x\n")], (0, 0, 1, 1));
    patch.original = None;
    assert_eq!(String::from_utf8(serialize(&patch)).unwrap(), "+++ b/file\n@@ -0,0 +1,1 @@\n+x\n");
    assert_eq!(parse(&serialize(&patch)), Ok(patch.clone()));
    patch.modified = None;
    assert_eq!(String::from_utf8(serialize(&patch)).unwrap(), "@@ -0,0 +1,1 @@\n+x\n");
    assert_eq!(parse(&serialize(&patch)), Ok(patch.clone()));
    patch.original = Some(Vec::new());
    assert_eq!(String::from_utf8(serialize(&patch)).unwrap(), "--- \n@@ -0,0 +1,1 @@\n+x\n");
    assert_eq!(parse(&serialize(&patch)), Ok(patch));
    let empty = Patch { original: None, modified: None, hunks: vec![] };
    assert_eq!(serialize(&empty), Vec::<u8>::new());
    assert_eq!(parse(b""), Ok(empty));
}

#[test]
fn labels_may_be_any_text() {
    let text = b"--- a b\tc --- +++ @@\n+++ \\ No newline at end of file\n";
    assert_eq!(
        parse(text),
        Ok(Patch {
            original: Some(b"a b\tc --- +++ @@".to_vec()),
            modified: Some(b"\\ No newline at end of file".to_vec()),
            hunks: vec![],
        })
    );
}

#[test]
fn largest_numbers_are_written_and_read() {
    let patch = one_hunk(vec![], (usize::MAX, 0, 0, 0));
    let text = serialize(&patch);
    assert_eq!(
        String::from_utf8(text.clone()).unwrap(),
        format!("--- a/file\n+++ b/file\n@@ -{},0 +0,0 @@\n", usize::MAX)
    );
    assert_eq!(parse(&text), Ok(patch));
    let too_large = format!("@@ -{}0,0 +0,0 @@\n", usize::MAX);
    assert_eq!(parse(too_large.as_bytes()), Err(ParseError::BadHunkHeader { line: 0 }));
    let leading_zeros = b"@@ -007,0 +0008,0 @@\n";
    assert_eq!(parse(leading_zeros).unwrap().hunks[0].original_start, 7);
    assert_eq!(parse(leading_zeros).unwrap().hunks[0].modified_start, 8);
}

#[test]
fn range_without_length_has_one_line() {
    let text = b"--- a/file\n+++ b/file\n@@ -3 +3 @@\n-a\n+b\n";
    assert_eq!(
        parse(text),
        Ok(one_hunk(
            vec![tagged(LineKind::Deletion, "a\n"), tagged(LineKind::Insertion, "b\n")],
            (3, 1, 3, 1)
        ))
    );
}

#[test]
fn empty_line_is_an_empty_context_line() {
    let text = b"--- a/file\n+++ b/file\n@@ -1,3 +1,3 @@\n a\n\n-b\n+c\n";
    assert_eq!(
        parse(text),
        Ok(one_hunk(
            vec![
                tagged(LineKind::Context, "a\n"),
                tagged(LineKind::Context, "\n"),
                tagged(LineKind::Deletion, "b\n"),
                tagged(LineKind::Insertion, "c\n"),
            ],
            (1, 3, 1, 3)
        ))
    );
}

#[test]
fn last_line_may_lack_its_newline() {
    let text = b"--- a/file\n+++ b/file\n@@ -1 +1 @@\n-a\n+b";
    assert_eq!(
        parse(text),
        Ok(one_hunk(
            vec![tagged(LineKind::Deletion, "a\n"), tagged(LineKind::Insertion, "b")],
            (1, 1, 1, 1)
        ))
    );
    let noted = b"--- a/file\n+++ b/file\n@@ -1 +1 @@\n-a\n+b\n\\ No newline at end of file";
    assert_eq!(parse(noted), parse(text));
}

#[test]
fn text_without_range_line_is_rejected() {
    let text = b"--- original\n+++ modified\n a\n-b\n+X\n c\n";
    assert_eq!(parse(text), Err(ParseError::BadHunkHeader { line: 2 }));
    assert_eq!(parse(b" a\n-b\n+X\n c\n"), Err(ParseError::BadHunkHeader { line: 0 }));
    assert_eq!(parse(b"just some text"), Err(ParseError::BadHunkHeader { line: 0 }));
}

#[test]
fn malformed_range_lines_are_rejected() {
    let bad = [
        "@@ -1,1 +1,1 @@",
        "@@ -1,1 +1,1 @@ fn main()\n",
        "@@ -1,1 +1,1@@\n",
        "@@ -1,1 1,1 @@\n",
        "@@ 1,1 +1,1 @@\n",
        "@@ -,1 +1,1 @@\n",
        "@@ -1, +1,1 @@\n",
        "@@ -x,1 +1,1 @@\n",
        "@@ -1,1 +1,1 @\n",
        "@@-1,1 +1,1 @@\n",
        "@ -1,1 +1,1 @@\n",
        "@@ -1,1  +1,1 @@\n",
        "@@ -1,1 +-1,1 @@\n",
        "@@ -1,1 +1,1 @@\r\n",
    ];
    for header in bad {
        let text = format!("--- a\n+++ b\n{header}-a\n+b\n");
        assert_eq!(
            parse(text.as_bytes()),
            Err(ParseError::BadHunkHeader { line: 2 }),
            "{header:?}"
        );
    }
}

#[test]
fn cut_off_label_line_is_rejected() {
    assert_eq!(parse(b"--- original"), Err(ParseError::BadHeader { line: 0 }));
    assert_eq!(parse(b"--- original\n+++ modified"), Err(ParseError::BadHeader { line: 1 }));
    assert_eq!(parse(b"+++ modified"), Err(ParseError::BadHeader { line: 0 }));
}

#[test]
fn unknown_marker_is_rejected() {
    let text = b"--- a\n+++ b\n@@ -1,2 +1,2 @@\n a\n*b\n";
    assert_eq!(parse(text), Err(ParseError::BadMarker { line: 4 }));
    let note_first = b"@@ -1,1 +1,1 @@\n\\ No newline at end of file\n a\n";
    assert_eq!(parse(note_first), Err(ParseError::BadMarker { line: 1 }));
    let tab = b"@@ -1,1 +1,1 @@\n\ta\n";
    assert_eq!(parse(tab), Err(ParseError::BadMarker { line: 1 }));
}

#[test]
fn wrong_line_count_is_rejected() {
    let too_few = b"--- a\n+++ b\n@@ -1,3 +1,3 @@\n a\n-b\n+X\n";
    assert_eq!(parse(too_few), Err(ParseError::LineCountMismatch { hunk: 0 }));
    let too_many = b"--- a\n+++ b\n@@ -1,2 +1,2 @@\n a\n-b\n+X\n c\n";
    assert_eq!(parse(too_many), Err(ParseError::LineCountMismatch { hunk: 0 }));
    let too_many_deleted = b"@@ -1,1 +1,2 @@\n-a\n-b\n+c\n+d\n";
    assert_eq!(parse(too_many_deleted), Err(ParseError::LineCountMismatch { hunk: 0 }));
    let too_many_inserted = b"@@ -1,2 +1,1 @@\n+a\n+b\n-c\n-d\n";
    assert_eq!(parse(too_many_inserted), Err(ParseError::LineCountMismatch { hunk: 0 }));
    let next_hunk_too_early = b"@@ -1,2 +1,2 @@\n a\n@@ -5,1 +5,1 @@\n b\n";
    assert_eq!(parse(next_hunk_too_early), Err(ParseError::LineCountMismatch { hunk: 0 }));
    let second = b"@@ -1,1 +1,1 @@\n a\n@@ -5,1 +5,2 @@\n b\n";
    assert_eq!(parse(second), Err(ParseError::LineCountMismatch { hunk: 1 }));
    let trailing_blank = b"@@ -1,1 +1,1 @@\n a\n\n";
    assert_eq!(parse(trailing_blank), Err(ParseError::LineCountMismatch { hunk: 0 }));
    let stray_note = b"@@ -1,1 +1,1 @@\n a\n\\ No newline at end of file\n\\ again\n";
    assert_eq!(parse(stray_note), Err(ParseError::LineCountMismatch { hunk: 0 }));
}

#[test]
fn text_after_the_last_hunk_is_rejected() {
    let text = b"@@ -1,1 +1,1 @@\n a\nsigned off\n";
    assert_eq!(parse(text), Err(ParseError::BadHunkHeader { line: 2 }));
}

#[test]
fn hunk_without_lines_is_read() {
    let text = b"@@ -4,0 +4,0 @@\n@@ -9,0 +9,0 @@\n";
    let patch = parse(text).unwrap();
    assert_eq!(patch.hunks.len(), 2);
    assert_eq!(patch.hunks[1].original_start, 9);
    assert_eq!(serialize(&patch), text.to_vec());
}

#[test]
fn lines_are_read_as_they_are_given() {
    let lines: Vec<Vec<u8>> =
        vec![b"@@ -1,1 +1,1 @@\n".to_vec(), b"-a\n".to_vec(), b"+b\n".to_vec()];
    let patch = parse_lines(&lines).unwrap();
    assert_eq!(
        patch.hunks[0].lines,
        vec![tagged(LineKind::Deletion, "a\n"), tagged(LineKind::Insertion, "b\n")]
    );
}
