use repatch::menu::PatchOption;
use repatch::rewrite::sort_u64;
use grep_regex::RegexMatcher;
use repatch::rewrite::{FileRewriter, MatchInfo, Resolution, Step};

fn sixty_lines() -> Vec<u8> {
    // lines 3, 4 and 50 (0-indexed) contain the pattern
    let mut src = Vec::new();
    for i in 0..60u64 {
        if i == 3 || i == 4 || i == 50 {
            src.extend_from_slice(format!("foo {i}\n").as_bytes());
        } else {
            src.extend_from_slice(format!("line {i}\n").as_bytes());
        }
    }
    src
}

#[test]
fn test_two_hunks_for_three_matches() {
    // matches on lines 3, 4 and 50 with padding 2 give exactly two hunks:
    // lines 1..=6 merged, and 48..=52
    let matcher = RegexMatcher::new("foo").unwrap();
    let src = sixty_lines();
    let mut lines: Vec<u64> = vec![50, 3, 4];
    let mut fr = FileRewriter::new(&matcher, b"bar", &src, &mut lines, 2, true);
    assert_eq!(lines, vec![3, 4, 50]);

    let mut reviews: Vec<(Vec<u8>, Vec<u8>, u64, u64, u64)> = Vec::new();
    loop {
        match fr.next_hunk() {
            Step::Review { original, replaced, start_line, index, total } => {
                assert_ne!(original, replaced);
                let outcome = PatchOption::WriteNew(replaced.clone());
                reviews.push((original, replaced, start_line, index, total));
                assert!(matches!(fr.resolve(outcome), Resolution::Continue));
            },
            Step::Failed(e) => panic!("substitution failed: {e}"),
            Step::Done => break,
        }
    }
    let (write_file, cont) = fr.finish();
    assert!(write_file);
    assert!(cont);

    assert_eq!(reviews.len(), 2);
    assert_eq!(reviews[0].2, 1); // first hunk starts at line 1
    assert_eq!(reviews[1].2, 48); // second hunk starts at line 48
    assert_eq!(reviews[0].4, 2); // two hunks in total
    assert_eq!(reviews[0].3, 0);
    assert_eq!(reviews[1].3, 1);

    let expected = String::from_utf8(sixty_lines())
        .unwrap()
        .replace("foo", "bar");
    assert_eq!(fr.out, expected.as_bytes().to_vec());
}

#[test]
fn test_identity_replacement_never_prompts() {
    // replacing the pattern with itself changes nothing, so no hunk is
    // ever handed out for review
    let matcher = RegexMatcher::new("foo").unwrap();
    let src = sixty_lines();
    let mut lines: Vec<u64> = vec![3, 4, 50];
    let mut fr = FileRewriter::new(&matcher, b"foo", &src, &mut lines, 2, true);
    loop {
        match fr.next_hunk() {
            Step::Review { .. } => panic!("an identical hunk was handed out for review"),
            Step::Failed(e) => panic!("substitution failed: {e}"),
            Step::Done => break,
        }
    }
    let (write_file, cont) = fr.finish();
    assert!(!write_file);
    assert!(cont);
    // with no change the staged output is discarded; what was written so
    // far is a verbatim prefix of the source
    assert!(sixty_lines().starts_with(&fr.out));
}

#[test]
fn test_skip_and_quit() {
    let matcher = RegexMatcher::new("foo").unwrap();
    let src = sixty_lines();
    let mut lines: Vec<u64> = vec![3, 4, 50];
    let mut fr = FileRewriter::new(&matcher, b"bar", &src, &mut lines, 2, true);
    // keep the original for the first hunk, quit at the second
    match fr.next_hunk() {
        Step::Review { .. } => {
            assert!(matches!(
                fr.resolve(PatchOption::WriteOriginal),
                Resolution::Continue
            ));
        },
        _ => panic!("expected a hunk"),
    }
    match fr.next_hunk() {
        Step::Review { .. } => {
            assert!(matches!(fr.resolve(PatchOption::Quit), Resolution::Continue));
        },
        _ => panic!("expected a second hunk"),
    }
    assert!(matches!(fr.next_hunk(), Step::Done));
    let (write_file, cont) = fr.finish();
    assert!(!write_file);
    assert!(!cont);
    // nothing was changed, so the staged output is discarded: it holds
    // what had been copied so far and never the remainder
    assert!(sixty_lines().starts_with(&fr.out));
}

#[test]
fn test_blank_replacement_asks() {
    let matcher = RegexMatcher::new("foo 3\n").unwrap();
    let src = b"a\nfoo 3\nb\n".to_vec();
    let mut lines: Vec<u64> = vec![1];
    let mut fr = FileRewriter::new(&matcher, b"", &src, &mut lines, 0, true);
    match fr.next_hunk() {
        Step::Review { original, replaced, .. } => {
            assert_eq!(original, b"foo 3\n".to_vec());
            assert_eq!(replaced, b"".to_vec());
            // an all-blank replacement needs an explicit confirmation
            assert!(matches!(
                fr.resolve(PatchOption::WriteNew(replaced)),
                Resolution::NeedsBlankConfirm
            ));
            fr.confirm_blank(true);
        },
        _ => panic!("expected a hunk"),
    }
    assert!(matches!(fr.next_hunk(), Step::Done));
    let (write_file, cont) = fr.finish();
    assert!(write_file);
    assert!(cont);
    assert_eq!(fr.out, b"a\nb\n".to_vec());
}

#[test]
fn test_blank_replacement_declined_stops() {
    let matcher = RegexMatcher::new("foo 3\n").unwrap();
    let src = b"a\nfoo 3\nb\n".to_vec();
    let mut lines: Vec<u64> = vec![1];
    let mut fr = FileRewriter::new(&matcher, b"", &src, &mut lines, 0, true);
    match fr.next_hunk() {
        Step::Review { replaced, .. } => {
            assert!(matches!(
                fr.resolve(PatchOption::WriteNew(replaced)),
                Resolution::NeedsBlankConfirm
            ));
            fr.confirm_blank(false);
        },
        _ => panic!("expected a hunk"),
    }
    let (write_file, cont) = fr.finish();
    assert!(!write_file);
    assert!(!cont);
    // the hunk was kept; the remainder is never copied for a discarded file
    assert_eq!(fr.out, b"a\nfoo 3\n".to_vec());
}

#[test]
fn test_unicode_blank_replacement_asks() {
    // a replacement of nothing but a no-break space is still "all lines
    // removed" and asks for confirmation
    let matcher = RegexMatcher::new("foo 3").unwrap();
    let src = b"a\nfoo 3\nb\n".to_vec();
    let mut lines: Vec<u64> = vec![1];
    let nbsp = "\u{00A0}".as_bytes();
    let mut fr = FileRewriter::new(&matcher, nbsp, &src, &mut lines, 0, true);
    match fr.next_hunk() {
        Step::Review { replaced, .. } => {
            assert_eq!(replaced, "\u{00A0}\n".as_bytes().to_vec());
            assert!(matches!(
                fr.resolve(PatchOption::WriteNew(replaced)),
                Resolution::NeedsBlankConfirm
            ));
            fr.confirm_blank(true);
        },
        _ => panic!("expected a hunk"),
    }
    assert!(matches!(fr.next_hunk(), Step::Done));
    let (write_file, _) = fr.finish();
    assert!(write_file);
    assert_eq!(fr.out, "a\n\u{00A0}\nb\n".as_bytes().to_vec());
}

#[test]
fn test_capture_group_interpolation() {
    let matcher = RegexMatcher::new(r"foo (?P<n>\d+)").unwrap();
    let src = b"foo 3\n".to_vec();
    let mut lines: Vec<u64> = vec![0];
    let mut fr = FileRewriter::new(&matcher, b"n=${n}!", &src, &mut lines, 0, true);
    match fr.next_hunk() {
        Step::Review { original, replaced, .. } => {
            assert_eq!(original, b"foo 3\n".to_vec());
            assert_eq!(replaced, b"n=3!\n".to_vec());
            fr.resolve(PatchOption::WriteNew(replaced));
        },
        _ => panic!("expected a hunk"),
    }
    assert!(matches!(fr.next_hunk(), Step::Done));
    let (write_file, _) = fr.finish();
    assert!(write_file);
    assert_eq!(fr.out, b"n=3!\n".to_vec());
}

#[test]
fn test_match_info_new() {
    let info = MatchInfo::new(123456789);
    assert_eq!(info.modified, 123456789);
    assert!(info.lines.is_empty());
}

#[test]
fn test_sort_u64() {
    let mut v = vec![5u64, 1, 4, 4, 0];
    sort_u64(&mut v);
    assert_eq!(v, vec![0, 1, 4, 4, 5]);
    let mut v: Vec<u64> = vec![];
    sort_u64(&mut v);
    assert!(v.is_empty());
}
