use built_different::apply::ApplyError;
use built_different::download::{after_last, should_download};
use built_different::env::parse_bool_env;
use built_different::files::{
    apply_file_patch, apply_file_patch_in_place, count_common_tail, create_file_patch,
    is_file_patch_applied, make_path_label, Outcome, PatchError,
};
use built_different::format::ParseError;
use built_different::symlink::{plan_symlink, LinkRefusal, LinkSite};
use built_different::tree::{
    in_place_source, name_has_extension, original_copy_name, patch_file_name, patched_file_name,
    InPlaceSource,
};

const PATCH: &[u8] = b"--- original\n+++ modified\n@@ -1,3 +1,3 @@\n a\n-b\n+X\n c\n";

fn names(parts: &[&str]) -> Vec<Vec<u8>> {
    parts.iter().map(|part| part.as_bytes().to_vec()).collect()
}

#[test]
fn patched_content_is_to_be_written() {
    assert_eq!(
        apply_file_patch(PATCH, b"a\nb\nc\n", None),
        Ok(Outcome::Write(b"a\nX\nc\n".to_vec()))
    );
    assert_eq!(
        apply_file_patch(PATCH, b"a\nb\nc\n", Some(b"something else")),
        Ok(Outcome::Write(b"a\nX\nc\n".to_vec()))
    );
}

#[test]
fn target_that_holds_the_result_is_left_alone() {
    assert_eq!(apply_file_patch(PATCH, b"a\nb\nc\n", Some(b"a\nX\nc\n")), Ok(Outcome::Unchanged));
}

#[test]
fn failures_are_told_apart() {
    assert_eq!(
        apply_file_patch(b"no patch", b"a\nb\nc\n", None),
        Err(PatchError::Parse(ParseError::BadHunkHeader { line: 0 }))
    );
    assert_eq!(
        apply_file_patch(PATCH, b"x\n", Some(b"x\n")),
        Err(PatchError::Apply(ApplyError::HunkMismatch {
            hunk: 0,
            expected: names(&["a\n", "b\n", "c\n"]),
            found: names(&["x\n"]),
        }))
    );
}

#[test]
fn patching_in_place() {
    assert_eq!(
        apply_file_patch_in_place(PATCH, b"a\nb\nc\n"),
        Ok(Outcome::Write(b"a\nX\nc\n".to_vec()))
    );
    // Once patched, the hunk's lines are gone and the patch applies no more.
    assert!(matches!(
        apply_file_patch_in_place(PATCH, b"a\nX\nc\n"),
        Err(PatchError::Apply(ApplyError::HunkMismatch { hunk: 0, .. }))
    ));
    let nothing = b"--- original\n+++ modified\n";
    assert_eq!(apply_file_patch_in_place(nothing, b"a\n"), Ok(Outcome::Unchanged));
}

#[test]
fn applied_file_patch_is_recognised() {
    assert!(is_file_patch_applied(PATCH, b"a\nb\nc\n", b"a\nX\nc\n"));
    assert!(!is_file_patch_applied(PATCH, b"a\nb\nc\n", b"a\nb\nc\n"));
    assert!(!is_file_patch_applied(PATCH, b"q\n", b"q\n"));
    assert!(!is_file_patch_applied(b"no patch", b"a\nb\nc\n", b"a\nX\nc\n"));
}

#[test]
fn file_patch_is_labelled_with_the_shared_end_of_the_paths() {
    let text = create_file_patch(
        b"a\nb\nc\n",
        b"a\nX\nc\n",
        &names(&["home", "me", "upstream", "src", "lib.c"]),
        &names(&["home", "me", "patched", "src", "lib.c"]),
    );
    assert_eq!(
        String::from_utf8(text).unwrap(),
        "--- ./src/lib.c\n+++ ./src/lib.c\n@@ -1,3 +1,3 @@\n a\n-b\n+X\n c\n"
    );
}

#[test]
fn file_patch_keeps_its_labels_without_a_shared_end() {
    let expected = String::from_utf8(PATCH.to_vec()).unwrap();
    let cases = [
        (names(&["tmp", "a.c"]), names(&["tmp", "b.c"])),
        (names(&["tmp", "a.c"]), names(&["tmp", "a.c"])),
        (names(&[]), names(&[])),
        (names(&["a", "new\nline"]), names(&["b", "new\nline"])),
    ];
    for (first, second) in cases {
        let text = create_file_patch(b"a\nb\nc\n", b"a\nX\nc\n", &first, &second);
        assert_eq!(String::from_utf8(text).unwrap(), expected);
    }
}

#[test]
fn shared_end_of_two_paths() {
    assert_eq!(count_common_tail(&names(&["a", "b", "c"]), &names(&["x", "b", "c"])), 2);
    assert_eq!(count_common_tail(&names(&["b", "c"]), &names(&["x", "b", "c"])), 2);
    assert_eq!(count_common_tail(&names(&["a", "b", "c"]), &names(&["a", "b", "d"])), 0);
    assert_eq!(count_common_tail(&names(&["a"]), &names(&["a"])), 1);
    assert_eq!(count_common_tail(&names(&[]), &names(&["a"])), 0);
    assert_eq!(
        make_path_label(&names(&["a", "b", "c"]), &names(&["x", "b", "c"])),
        Some(b"./b/c".to_vec())
    );
    assert_eq!(
        make_path_label(&names(&["b", "c"]), &names(&["x", "b", "c"])),
        Some(b"./b/c".to_vec())
    );
    assert_eq!(make_path_label(&names(&["b", "c"]), &names(&["b", "c"])), None);
    assert_eq!(make_path_label(&names(&["b", "c"]), &names(&["b", "d"])), None);
}

#[test]
fn names_of_patch_files() {
    assert_eq!(patch_file_name(b"src/lib.c"), b"src/lib.c.patch".to_vec());
    assert_eq!(patch_file_name(b""), b".patch".to_vec());
    assert_eq!(patched_file_name(b"lib.c.patch"), Some(b"lib.c".to_vec()));
    assert_eq!(patched_file_name(b".patch"), Some(Vec::new()));
    assert_eq!(patched_file_name(b"lib.c.mypatch"), None);
    assert_eq!(patched_file_name(b"lib.c"), None);
    assert_eq!(patched_file_name(b"patch"), None);
}

#[test]
fn names_of_kept_copies() {
    assert_eq!(original_copy_name(b"lib.c"), b"lib.c.original".to_vec());
    assert_eq!(original_copy_name(b"archive.tar.gz"), b"archive.tar.gz.original".to_vec());
    assert_eq!(original_copy_name(b"Makefile"), b"Makefile..original".to_vec());
    assert_eq!(original_copy_name(b".gitignore"), b".gitignore..original".to_vec());
    assert_eq!(original_copy_name(b".config.toml"), b".config.toml.original".to_vec());
    assert_eq!(original_copy_name(b"trailing."), b"trailing..original".to_vec());
    assert!(name_has_extension(b"a.b"));
    assert!(name_has_extension(b"a."));
    assert!(!name_has_extension(b".a"));
    assert!(!name_has_extension(b"a"));
    assert!(!name_has_extension(b""));
}

#[test]
fn kept_copy_name_matches_the_standard_library() {
    for name in ["lib.c", "archive.tar.gz", "Makefile", ".gitignore", ".config.toml", "trailing."] {
        let path = std::path::Path::new(name);
        let extension = path.extension().unwrap_or_default().to_str().unwrap_or_default();
        let expected = path.with_extension(extension.to_owned() + ".original");
        assert_eq!(
            String::from_utf8(original_copy_name(name.as_bytes())).unwrap(),
            expected.to_str().unwrap(),
            "{name}"
        );
    }
}

#[test]
fn source_of_the_original_in_place() {
    assert_eq!(in_place_source(false, false), InPlaceSource::Target);
    assert_eq!(in_place_source(false, true), InPlaceSource::Target);
    assert_eq!(in_place_source(true, true), InPlaceSource::Copy);
    assert_eq!(in_place_source(true, false), InPlaceSource::NewCopy);
}

#[test]
fn words_for_yes_and_no() {
    for word in ["", "0", "false", "f", "no", "n", "off", "FALSE", "Off", "nO"] {
        assert_eq!(parse_bool_env(Some(word.as_bytes()), true), Some(false), "{word}");
    }
    for word in ["1", "true", "t", "yes", "y", "on", "TRUE", "Yes", "oN"] {
        assert_eq!(parse_bool_env(Some(word.as_bytes()), false), Some(true), "{word}");
    }
    for word in ["2", "maybe", " true", "true ", "tru", "truee", "o", "\u{212a}", "ye\u{17f}"] {
        assert_eq!(parse_bool_env(Some(word.as_bytes()), false), None, "{word}");
    }
    assert_eq!(parse_bool_env(None, true), Some(true));
    assert_eq!(parse_bool_env(None, false), Some(false));
}

#[test]
fn archive_is_fetched_unless_unpacked() {
    assert!(should_download(true, true, false));
    assert!(should_download(true, false, false));
    assert!(should_download(true, true, true));
    assert!(!should_download(false, true, false));
    assert!(should_download(false, true, true));
    assert!(should_download(false, false, true));
    assert!(should_download(false, false, false));
}

#[test]
fn last_part_of_a_url() {
    let url = b"https://example.org/files/tool-1.2.tar.gz";
    assert_eq!(after_last(url, b'/'), b"tool-1.2.tar.gz".to_vec());
    assert_eq!(after_last(url, b'.'), b"gz".to_vec());
    assert_eq!(after_last(b"plain", b'/'), b"plain".to_vec());
    assert_eq!(after_last(b"ends/", b'/'), Vec::<u8>::new());
    assert_eq!(after_last(b"", b'/'), Vec::<u8>::new());
}

#[test]
fn link_sites() {
    let free = LinkSite { exists: false, is_dir: false, is_file: false, is_symlink: false };
    assert_eq!(plan_symlink(free, false), Ok(false));
    assert_eq!(plan_symlink(free, true), Ok(false));
    let directory = LinkSite { exists: true, is_dir: true, ..free };
    assert_eq!(plan_symlink(directory, true), Err(LinkRefusal::Directory));
    let file = LinkSite { exists: true, is_file: true, ..free };
    assert_eq!(plan_symlink(file, true), Err(LinkRefusal::File));
    let dangling = LinkSite { is_symlink: true, ..free };
    assert_eq!(plan_symlink(dangling, true), Ok(true));
    assert_eq!(plan_symlink(dangling, false), Err(LinkRefusal::Link));
    let link_to_directory = LinkSite { exists: true, is_dir: true, is_symlink: true, ..free };
    assert_eq!(plan_symlink(link_to_directory, true), Err(LinkRefusal::Directory));
}
