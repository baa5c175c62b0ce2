use repatch::editor::choose_editor;
use repatch::options::Context;
use repatch::parse::bytes_as_u64;
use repatch::parse::lines_with_pos;
use repatch::parse::patch_block_header;
use repatch::replace::ReplaceFileError;
use repatch::replace::staging_path;
use repatch::replace::{commit_decision, permission_bits, CommitDecision};
use repatch::ranges::{ranges, HunkRange};

fn hr(start: u64, end: u64) -> HunkRange {
    HunkRange { start, end }
}

#[test]
fn test_ranges() {
    let list = [1, 2, 10, 12, 35, 38, 55, u64::MAX];
    let padding = 5;
    assert_eq!(
        ranges(&list, padding),
        [hr(0, 17), hr(30, 43), hr(50, 60), hr(u64::MAX - 5, u64::MAX)],
    );

    let list = [1, 2, 10, 12, 35, 38, 55, u64::MAX];
    let padding = u64::MAX;
    assert_eq!(ranges(&list, padding), [hr(0, u64::MAX)]);

    let list = [];
    let padding = 5;
    assert_eq!(ranges(&list, padding), []);

    let list = [1, 2, 5, 7, 100];
    let padding = 0;
    assert_eq!(
        ranges(&list, padding),
        [hr(1, 1), hr(2, 2), hr(5, 5), hr(7, 7), hr(100, 100)]
    );

    let list = [1, 2, 5, 7, 100];
    let padding = 1;
    assert_eq!(ranges(&list, padding), [hr(0, 3), hr(4, 8), hr(99, 101)]);
}

#[test]
fn test_bytes_as_u64() {
    assert_eq!(bytes_as_u64(b"123"), Some(123));
    assert_eq!(bytes_as_u64(b"+5"), Some(5));
    assert_eq!(bytes_as_u64(b"0"), Some(0));
    assert_eq!(bytes_as_u64(b"18446744073709551615"), Some(u64::MAX));
    assert_eq!(bytes_as_u64(b"18446744073709551616"), None);
    assert_eq!(bytes_as_u64(b""), None);
    assert_eq!(bytes_as_u64(b"+"), None);
    assert_eq!(bytes_as_u64(b"12x"), None);
    assert_eq!(bytes_as_u64(b"-3"), None);
}

#[test]
fn test_patch_block_header() {
    assert_eq!(
        patch_block_header(b"@@ -1,2 +3,4 @@"),
        Some(((1, 2), (3, 4)))
    );
    assert_eq!(
        patch_block_header(b"@@ -10,0 +9,12 @@"),
        Some(((10, 0), (9, 12)))
    );
    assert_eq!(patch_block_header(b"@@ -1,2 +3,4"), None);
    assert_eq!(patch_block_header(b"-1,2 +3,4 @@"), None);
    assert_eq!(patch_block_header(b"@@ -1 +3 @@"), None);
    assert_eq!(patch_block_header(b""), None);
}

#[test]
fn test_lines_with_pos() {
    let lines = lines_with_pos(b"ab\ncd");
    assert_eq!(lines.len(), 2);
    assert_eq!(lines[0], (b"ab".to_vec(), 0));
    assert_eq!(lines[1], (b"cd".to_vec(), 3));

    let lines = lines_with_pos(b"a\r\nb\n");
    assert_eq!(lines.len(), 2);
    assert_eq!(lines[0].0, b"a".to_vec());
    assert_eq!(lines[1].0, b"b".to_vec());

    assert_eq!(lines_with_pos(b"").len(), 0);
}

#[test]
fn test_staging_path() {
    assert_eq!(staging_path(b"foo.rs"), b"foo.rs.asdf123.tmp".to_vec());
    assert_eq!(staging_path(b"dir/foo.rs"), b"dir/foo.rs.asdf123.tmp".to_vec());
    assert_eq!(staging_path(b"foo"), b"foo..asdf123.tmp".to_vec());
    assert_eq!(staging_path(b".bashrc"), b".bashrc..asdf123.tmp".to_vec());
    assert_eq!(staging_path(b"a.d/foo"), b"a.d/foo..asdf123.tmp".to_vec());
}

#[test]
fn test_commit_decision() {
    assert_eq!(commit_decision(false, Some(7), 7), CommitDecision::Discard);
    assert_eq!(commit_decision(false, Some(7), 8), CommitDecision::Discard);
    assert_eq!(commit_decision(true, Some(7), 7), CommitDecision::Commit);
    assert_eq!(
        commit_decision(true, Some(7), 8),
        CommitDecision::RejectModified
    );
    assert_eq!(commit_decision(true, None, 8), CommitDecision::Commit);
}

#[test]
fn test_permission_bits() {
    // a regular file with mode 0o100755 keeps only rwxr-xr-x
    assert_eq!(permission_bits(0o100755, 0o777), 0o755);
    // a mask narrows further
    assert_eq!(permission_bits(0o100755, 0o700), 0o700);
    assert_eq!(permission_bits(0o040644, u32::MAX), 0o644);
}

#[test]
fn test_replace_file_error_message() {
    let e = ReplaceFileError::Io("boom".to_string());
    assert_eq!(e.message(), "boom");
    let e = ReplaceFileError::ModifiedTimeChanged;
    assert_eq!(
        e.message(),
        "the file's \"modified\" timestamp unexpectedly changed"
    );
    let e: ReplaceFileError = ReplaceFileError::from("io".to_string());
    assert!(matches!(e, ReplaceFileError::Io(_)));
}

#[test]
fn test_context_parse_and_display() {
    assert_eq!(Context::parse(b"infinite"), Some(Context::Infinite));
    assert_eq!(Context::parse(b"12"), Some(Context::Num(12)));
    assert_eq!(Context::parse(b"x"), None);
    assert_eq!(Context::parse(b""), None);
    assert_eq!(Context::default(), Context::Num(5));
    assert_eq!(Context::Num(40).display_bytes(), b"40".to_vec());
    assert_eq!(Context::Infinite.display_bytes(), b"infinite".to_vec());
    assert_eq!(Context::Num(7).padding(), 7);
    assert_eq!(Context::Infinite.padding(), u64::MAX);
}

#[test]
fn test_choose_editor() {
    let r = choose_editor(Some(b"  code --wait  "), Some(b"nano"), None, None);
    assert_eq!(r, vec![b"code".to_vec(), b"--wait".to_vec()]);
    let r = choose_editor(Some(b"   "), Some(b"nano -w"), None, None);
    assert_eq!(r, vec![b"nano".to_vec(), b"-w".to_vec()]);
    let r = choose_editor(None, None, Some(b"emacs"), None);
    assert_eq!(r, vec![b"emacs".to_vec()]);
    let r = choose_editor(None, None, None, Some(b"hx"));
    assert_eq!(r, vec![b"hx".to_vec()]);
    let r = choose_editor(None, None, None, None);
    assert_eq!(r, vec![b"vim".to_vec()]);
    // Unicode whitespace separates and empties a candidate just as ASCII does
    let r = choose_editor(Some("\u{00A0}\u{2028}".as_bytes()), Some(b"nano"), None, None);
    assert_eq!(r, vec![b"nano".to_vec()]);
    let r = choose_editor(Some("code\u{00A0}--wait".as_bytes()), None, None, None);
    assert_eq!(r, vec![b"code".to_vec(), b"--wait".to_vec()]);
}
