use pijul_core::diff::{diff, line_index, split_lines, Algorithm, Line, Replacement, D};

fn rep(old: usize, old_len: usize, new: usize, new_len: usize) -> Replacement {
    Replacement { old, old_len, new, new_len }
}

fn lines_of<'a>(words: &[&'a str]) -> Vec<Line<'a>> {
    let mut start = 0;
    let mut out = Vec::new();
    for w in words {
        out.push(Line { l: w.as_bytes(), start });
        start += w.len();
    }
    out
}

#[test]
fn default_algorithm_is_myers() {
    assert_eq!(Algorithm::default(), Algorithm::Myers);
}

#[test]
fn split_lines_empty_text() {
    assert!(split_lines(b"").is_empty());
}

#[test]
fn split_lines_terminated() {
    let text = b"hello\nworld\n";
    let lines = split_lines(text);
    assert_eq!(lines.len(), 2);
    assert_eq!(lines[0].l, b"hello\n");
    assert_eq!(lines[0].start, 0);
    assert_eq!(lines[1].l, b"world\n");
    assert_eq!(lines[1].start, 6);
}

#[test]
fn split_lines_trailing_partial_line() {
    let text = b"a\n\nbc";
    let lines = split_lines(text);
    assert_eq!(lines.len(), 3);
    assert_eq!(lines[0].l, b"a\n");
    assert_eq!(lines[1].l, b"\n");
    assert_eq!(lines[1].start, 2);
    assert_eq!(lines[2].l, b"bc");
    assert_eq!(lines[2].start, 3);
}

#[test]
fn split_lines_concatenate_to_text() {
    let text = b"one\ntwo\n\nthree";
    let mut joined = Vec::new();
    for line in split_lines(text) {
        assert_eq!(line.start, joined.len());
        joined.extend_from_slice(line.l);
    }
    assert_eq!(&joined[..], &text[..]);
}

#[test]
fn myers_single_replacement() {
    let a = lines_of(&["0\n", "1\n", "2\n", "3\n", "4\n"]);
    let b = lines_of(&["0\n", "1\n", "2\n", "9\n", "4\n"]);
    let d = diff(&a, &b, Algorithm::Myers, false);
    assert!(!d.stop_early);
    assert_eq!(d.r, vec![rep(3, 1, 3, 1)]);
    assert_eq!(d.len(), 1);
    assert_eq!(d[0], rep(3, 1, 3, 1));
}

#[test]
fn myers_replacement_of_unequal_lengths() {
    let a = lines_of(&["0\n", "1\n", "2\n", "3\n", "4\n"]);
    let b = lines_of(&["0\n", "1\n", "2\n", "7\n", "8\n", "9\n"]);
    let d = diff(&a, &b, Algorithm::Myers, false);
    assert_eq!(d.r, vec![rep(3, 2, 3, 3)]);
}

#[test]
fn myers_equal_texts_have_no_replacement() {
    let a = lines_of(&["x\n", "y\n"]);
    let b = lines_of(&["x\n", "y\n"]);
    let d = diff(&a, &b, Algorithm::Myers, false);
    assert!(d.r.is_empty());
    assert!(d.is_ordered());
}

#[test]
fn myers_pure_insertion_and_deletion() {
    let a = lines_of(&["hello\n"]);
    let b = lines_of(&["hello\n", "world\n"]);
    assert_eq!(diff(&a, &b, Algorithm::Myers, false).r, vec![rep(1, 0, 1, 1)]);
    assert_eq!(diff(&b, &a, Algorithm::Myers, false).r, vec![rep(1, 1, 1, 0)]);
}

#[test]
fn patience_known_script() {
    let a = lines_of(&["11", "1", "2", "2", "3", "4", "4", "4", "5", "47", "19"]);
    let b = lines_of(&["10", "1", "2", "2", "8", "9", "4", "4", "7", "47", "18"]);
    let d = diff(&a, &b, Algorithm::Patience, false);
    assert_eq!(
        d.r,
        vec![rep(0, 1, 0, 1), rep(4, 2, 4, 2), rep(8, 1, 8, 1), rep(10, 1, 10, 1)]
    );
    assert!(d.is_ordered());
}

#[test]
fn histogram_reports_each_change() {
    let a = lines_of(&["a\n", "b\n", "c\n", "d\n", "e\n"]);
    let b = lines_of(&["a\n", "x\n", "c\n", "d\n", "y\n", "z\n"]);
    let d = diff(&a, &b, Algorithm::ImaraHistogram, false);
    assert_eq!(d.r, vec![rep(1, 1, 1, 1), rep(4, 1, 4, 2)]);
    assert!(d.is_ordered());
}

#[test]
fn histogram_ignores_stop_early() {
    let a = lines_of(&["a\n", "b\n", "c\n", "d\n", "e\n"]);
    let b = lines_of(&["a\n", "x\n", "c\n", "d\n", "y\n", "z\n"]);
    let d = diff(&a, &b, Algorithm::ImaraHistogram, true);
    assert!(d.stop_early);
    assert_eq!(d.r.len(), 2);
}

#[test]
fn stop_early_keeps_the_first_report_only() {
    let a = lines_of(&["a\n", "b\n", "c\n", "d\n", "e\n"]);
    let b = lines_of(&["a\n", "x\n", "c\n", "d\n", "y\n", "z\n"]);
    for algorithm in [Algorithm::Myers, Algorithm::Patience] {
        let full = diff(&a, &b, algorithm, false);
        let short = diff(&a, &b, algorithm, true);
        assert!(short.stop_early);
        assert_eq!(full.r.len(), 2);
        assert_eq!(short.r, vec![full.r[0]]);
    }
}

#[test]
fn stop_early_on_equal_texts_reports_nothing() {
    let a = lines_of(&["a\n"]);
    let d = diff(&a, &a, Algorithm::Myers, true);
    assert!(d.r.is_empty());
}

#[test]
fn all_algorithms_agree_on_a_simple_edit() {
    let old = b"hello\n";
    let new = b"hello\nworld\n";
    let a = split_lines(old);
    let b = split_lines(new);
    for algorithm in [Algorithm::Myers, Algorithm::Patience, Algorithm::ImaraHistogram] {
        assert_eq!(diff(&a, &b, algorithm, false).r, vec![rep(1, 0, 1, 1)]);
    }
}

#[test]
fn line_index_finds_each_line() {
    let lines = split_lines(b"ab\ncde\n\nf");
    assert_eq!(line_index(&lines, 0), 0);
    assert_eq!(line_index(&lines, 3), 1);
    assert_eq!(line_index(&lines, 7), 2);
    assert_eq!(line_index(&lines, 8), 3);
}

#[test]
fn line_index_counts_from_the_first_line() {
    let lines = vec![
        Line { l: b"ab\n", start: 10 },
        Line { l: b"c\n", start: 13 },
    ];
    assert_eq!(line_index(&lines, 3), 1);
}

#[test]
fn is_ordered_rejects_overlap_and_disorder() {
    let overlap = D { r: vec![rep(0, 3, 0, 0), rep(2, 1, 0, 0)], stop_early: false };
    assert!(!overlap.is_ordered());
    let disorder = D { r: vec![rep(5, 1, 0, 0), rep(2, 1, 0, 0)], stop_early: false };
    assert!(!disorder.is_ordered());
    let same_start = D { r: vec![rep(2, 0, 0, 1), rep(2, 1, 1, 0)], stop_early: false };
    assert!(!same_start.is_ordered());
    let fine = D { r: vec![rep(0, 2, 0, 0), rep(2, 1, 0, 4)], stop_early: false };
    assert!(fine.is_ordered());
}

#[test]
fn is_deleted_tells_deleted_lines_from_kept_ones() {
    let lines = split_lines(b"a\nbb\nccc\ndddd\neeeee\n");
    let d = D { r: vec![rep(1, 2, 1, 0), rep(4, 1, 2, 3)], stop_early: false };
    assert!(d.is_ordered());
    // line 0 is kept
    assert!(d.is_deleted(&lines, 0).is_none());
    // line 1 begins a deletion
    let hit = d.is_deleted(&lines, 2).unwrap();
    assert!(!hit.replaced);
    assert_eq!(hit.next, 5);
    // line 2 lies inside it
    let hit = d.is_deleted(&lines, 5).unwrap();
    assert!(!hit.replaced);
    assert_eq!(hit.next, 9);
    // line 3 is kept
    assert!(d.is_deleted(&lines, 9).is_none());
    // line 4 is replaced
    let hit = d.is_deleted(&lines, 14).unwrap();
    assert!(hit.replaced);
    assert_eq!(hit.next, 20);
}

#[test]
fn is_deleted_ignores_insertions() {
    let lines = split_lines(b"a\nb\n");
    let d = D { r: vec![rep(1, 0, 1, 2)], stop_early: false };
    assert!(d.is_deleted(&lines, 0).is_none());
    assert!(d.is_deleted(&lines, 2).is_none());
}

#[test]
fn is_deleted_after_a_real_diff() {
    let old = b"one\ntwo\nthree\n";
    let new = b"one\nthree\n";
    let a = split_lines(old);
    let b = split_lines(new);
    let d = diff(&a, &b, Algorithm::Myers, false);
    assert!(d.is_ordered());
    assert!(d.is_deleted(&a, 0).is_none());
    let hit = d.is_deleted(&a, 4).unwrap();
    assert!(!hit.replaced);
    assert_eq!(hit.next, 8);
    assert!(d.is_deleted(&a, 8).is_none());
}

fn bytes_of(lines: &[Line]) -> Vec<Vec<u8>> {
    lines.iter().map(|l| l.l.to_vec()).collect()
}

#[test]
fn the_replacements_make_the_new_text_of_the_old() {
    let cases: [(&[u8], &[u8]); 7] = [
        (b"", b""),
        (b"", b"a\nb\n"),
        (b"a\nb\n", b""),
        (b"hello\n", b"hello\nworld\n"),
        (b"hello\nworld\n", b"HELLO\nworld\n!!!\n"),
        (b"a\nb\nc\nd\ne\nf\ng\n", b"a\nx\nc\ne\ny\nz\ng\nh"),
        (b"one\ntwo\nthree", b"three\ntwo\none"),
    ];
    for (old, new) in cases {
        let a = split_lines(old);
        let b = split_lines(new);
        for algorithm in [Algorithm::Myers, Algorithm::Patience, Algorithm::ImaraHistogram] {
            let d = diff(&a, &b, algorithm, false);
            let patched = d.apply(&a, &b).expect("the replacements can be made");
            assert_eq!(bytes_of(&patched), bytes_of(&b), "{:?}", algorithm);
            let text: Vec<u8> = patched.iter().flat_map(|l| l.l.iter().copied()).collect();
            assert_eq!(&text[..], new);
        }
    }
}

#[test]
fn replacements_that_do_not_fit_are_not_made() {
    let a = split_lines(b"a\nb\nc\n");
    let b = split_lines(b"x\ny\n");
    let fits = D { r: vec![rep(1, 1, 0, 2)], stop_early: false };
    assert_eq!(bytes_of(&fits.apply(&a, &b).unwrap()), vec![b"a\n".to_vec(), b"x\n".to_vec(), b"y\n".to_vec(), b"c\n".to_vec()]);
    let none = D { r: vec![], stop_early: false };
    assert_eq!(bytes_of(&none.apply(&a, &b).unwrap()), bytes_of(&a));
    let beyond_old = D { r: vec![rep(2, 2, 0, 0)], stop_early: false };
    assert!(beyond_old.apply(&a, &b).is_none());
    let beyond_new = D { r: vec![rep(0, 0, 1, 2)], stop_early: false };
    assert!(beyond_new.apply(&a, &b).is_none());
    let overlapping = D { r: vec![rep(0, 2, 0, 0), rep(1, 1, 0, 0)], stop_early: false };
    assert!(overlapping.apply(&a, &b).is_none());
    let disordered = D { r: vec![rep(2, 1, 0, 0), rep(0, 1, 0, 0)], stop_early: false };
    assert!(disordered.apply(&a, &b).is_none());
    let huge = D { r: vec![rep(usize::MAX, usize::MAX, usize::MAX, usize::MAX)], stop_early: false };
    assert!(huge.apply(&a, &b).is_none());
}

/// A small generator of numbers, the same on every run.
struct Numbers(u64);

impl Numbers {
    fn next(&mut self, below: u64) -> u64 {
        self.0 = self.0.wrapping_mul(6364136223846793005).wrapping_add(1442695040888963407);
        (self.0 >> 33) % below
    }

    fn text(&mut self) -> Vec<u8> {
        let lines = self.next(12);
        let mut text = Vec::new();
        for _ in 0..lines {
            text.push(b'a' + self.next(4) as u8);
            text.push(b'\n');
        }
        if self.next(3) == 0 {
            text.push(b'z');
        }
        text
    }
}

#[test]
fn what_is_claimed_of_the_diff_algorithms_holds_on_many_texts() {
    let mut numbers = Numbers(7);
    for _ in 0..400 {
        let old = numbers.text();
        let new = numbers.text();
        let a = split_lines(&old);
        let b = split_lines(&new);
        for algorithm in [Algorithm::Myers, Algorithm::Patience, Algorithm::ImaraHistogram] {
            let d = diff(&a, &b, algorithm, false);
            assert!(d.is_ordered(), "{:?} {:?} {:?}", algorithm, old, new);
            let patched = d.apply(&a, &b).expect("the replacements can be made");
            assert_eq!(bytes_of(&patched), bytes_of(&b), "{:?} {:?} {:?}", algorithm, old, new);
            assert_eq!(d.r.is_empty(), old == new);
            for pair in d.r.windows(2) {
                assert!(pair[0].old + pair[0].old_len <= pair[1].old);
                assert!(pair[0].new + pair[0].new_len <= pair[1].new);
                if algorithm == Algorithm::ImaraHistogram {
                    assert!(pair[0].old + pair[0].old_len < pair[1].old);
                    assert!(pair[0].new + pair[0].new_len < pair[1].new);
                }
            }
            // the same texts give the same replacements
            assert_eq!(diff(&a, &b, algorithm, false).r, d.r);
            let short = diff(&a, &b, algorithm, true);
            if algorithm == Algorithm::ImaraHistogram {
                assert_eq!(short.r, d.r);
            } else {
                assert_eq!(short.r, d.r.iter().take(1).copied().collect::<Vec<_>>());
            }
        }
    }
}

#[test]
fn every_line_of_the_old_text_is_deleted_or_kept() {
    let mut numbers = Numbers(11);
    for _ in 0..200 {
        let old = numbers.text();
        let new = numbers.text();
        let a = split_lines(&old);
        let b = split_lines(&new);
        let d = diff(&a, &b, Algorithm::Myers, false);
        assert!(d.is_ordered());
        for (n, line) in a.iter().enumerate() {
            assert_eq!(line_index(&a, line.start), n);
            let covered = d.r.iter().find(|r| r.old <= n && n < r.old + r.old_len);
            match d.is_deleted(&a, line.start) {
                Some(hit) => {
                    let r = covered.expect("a replacement deletes the line");
                    assert_eq!(hit.replaced, r.new_len > 0);
                    assert_eq!(hit.next, line.start + line.l.len());
                }
                None => assert!(covered.is_none()),
            }
        }
    }
}
