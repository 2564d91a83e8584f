use edit_anchor::anchor::find_best_match_position;
use edit_anchor::diff::{diff_lines, DiffLine, DiffTag};
use edit_anchor::patch::{apply_edit, apply_fragments, apply_marked_edit, plan_edit};
use edit_anchor::segment::{marker_lines, segment_edit, segment_marked};
use edit_anchor::similarity::{exceeds_threshold, greater_than, levenshtein, similarity_score, Similarity};
use edit_anchor::splice::splice_block;
use edit_anchor::text::{join, line_is_blank, split_lines};

fn strings(v: &[&str]) -> Vec<String> {
    v.iter().map(|s| s.to_string()).collect()
}

fn old_side(d: &[DiffLine]) -> String {
    d.iter().filter(|l| l.tag != DiffTag::Added).map(|l| l.text.clone()).collect()
}

fn new_side(d: &[DiffLine]) -> String {
    d.iter().filter(|l| l.tag != DiffTag::Removed).map(|l| l.text.clone()).collect()
}

#[test]
fn create_writes_edit_verbatim_and_tags_every_line_added() {
    let edit = "fn main() {\n    println!(\"hi\");\n}\n";
    let plan = plan_edit("src/new.rs", None, edit);
    assert_eq!(plan.content, edit);
    assert!(plan.result.success);
    assert!(plan.result.is_new);
    assert_eq!(plan.result.file, "src/new.rs");
    let texts: Vec<String> = plan.result.changes.iter().map(|l| l.text.clone()).collect();
    assert_eq!(texts, strings(&["fn main() {", "    println!(\"hi\");", "}"]));
    assert!(plan.result.changes.iter().all(|l| l.tag == DiffTag::Added));
    assert_eq!(plan.result.rendered_changes()[0], "+ fn main() {");
}

#[test]
fn unique_exact_match_anchors_at_its_index() {
    let buf = strings(&["alpha", "beta", "gamma"]);
    let frag = strings(&["", "   ", "gamma", "delta"]);
    assert_eq!(find_best_match_position(&frag, &buf), 2);
}

#[test]
fn repeated_exact_match_anchors_at_first() {
    let buf = strings(&["x", "}", "y", "}", "z"]);
    let frag = strings(&["}", "w"]);
    assert_eq!(find_best_match_position(&frag, &buf), 1);
}

#[test]
fn blank_fragment_anchors_at_top() {
    let buf = strings(&["a", "b", "c", "d", "e", "f"]);
    assert_eq!(find_best_match_position(&strings(&["", "  \t"]), &buf), 0);
    assert_eq!(find_best_match_position(&strings(&[]), &buf), 0);
    assert_eq!(find_best_match_position(&strings(&["q"]), &strings(&[])), 0);
}

#[test]
fn fuzzy_match_above_threshold_picks_most_similar_line() {
    let buf = strings(&["use std::io;", "fn main() {", "    run();", "}"]);
    let frag = strings(&["fn main(){", "    go();"]);
    assert_eq!(find_best_match_position(&frag, &buf), 1);
}

#[test]
fn fuzzy_match_at_or_below_threshold_defaults_to_top() {
    let buf = strings(&["aaaa", "bbbb", "cccc"]);
    let frag = strings(&["zzzz"]);
    assert_eq!(find_best_match_position(&frag, &buf), 0);
    // "abcde" vs "abxyz": distance 3 of 5, similarity 0.4
    let buf = strings(&["qqqqq", "abxyz"]);
    assert_eq!(find_best_match_position(&strings(&["abcde"]), &buf), 0);
}

#[test]
fn fuzzy_ties_keep_first_index() {
    let buf = strings(&["zz", "abcdx", "abcdy"]);
    assert_eq!(find_best_match_position(&strings(&["abcde"]), &buf), 1);
}

#[test]
fn similarity_values() {
    let s = similarity_score("kitten", "sitting");
    assert_eq!(s, Similarity { shared: 4, total: 7 });
    assert_eq!(similarity_score("sitting", "kitten"), s);
    assert_eq!(similarity_score("", ""), Similarity { shared: 1, total: 1 });
    let same = similarity_score("héllo wörld", "héllo wörld");
    assert_eq!(same.shared, same.total);
    assert_eq!(similarity_score("abc", ""), Similarity { shared: 0, total: 3 });
    let a: Vec<char> = "flaw".chars().collect();
    let b: Vec<char> = "lawn".chars().collect();
    assert_eq!(levenshtein(&a, &b), 2);
}

#[test]
fn score_comparisons() {
    let three_fifths = Similarity { shared: 3, total: 5 };
    assert!(!exceeds_threshold(three_fifths));
    assert!(exceeds_threshold(Similarity { shared: 7, total: 10 }));
    assert!(greater_than(Similarity { shared: 2, total: 3 }, three_fifths));
    assert!(!greater_than(Similarity { shared: 6, total: 10 }, three_fifths));
}

#[test]
fn worked_scenario_reproduces_heuristic_splice() {
    let buf = strings(&["a", "b", "c", "d", "e"]);
    let frag = strings(&["b", "X", "d"]);
    let anchor = find_best_match_position(&frag, &buf);
    assert_eq!(anchor, 1);
    // window [0, 4), three lines replaced: buffer[0..0] ++ fragment ++ buffer[3..]
    assert_eq!(splice_block(&buf, anchor, &frag), strings(&["b", "X", "d", "d", "e"]));
    assert_eq!(apply_edit("a\nb\nc\nd\ne", "b\nX\nd"), "b\nX\nd\nd\ne");
}

#[test]
fn splice_removes_at_most_window_and_fragment_length() {
    let buf: Vec<String> = (0..20).map(|i| format!("l{}", i)).collect();
    let frag = strings(&["n1", "n2", "n3", "n4", "n5", "n6", "n7", "n8", "n9"]);
    let out = splice_block(&buf, 10, &frag);
    // window [7, 13): six lines replaced by nine
    assert_eq!(out.len(), 20 - 6 + 9);
    assert_eq!(out[6], "l6");
    assert_eq!(out[7], "n1");
    assert_eq!(out[16], "l13");
    let short = splice_block(&buf, 0, &strings(&["only"]));
    assert_eq!(short.len(), 20);
    assert_eq!(short[0], "only");
    assert_eq!(short[1], "l1");
    let empty = splice_block(&strings(&[]), 0, &strings(&["x", "y"]));
    assert_eq!(empty, strings(&["x", "y"]));
}

#[test]
fn two_markers_around_one_fragment() {
    let edit = "// ... existing code ...\nfn added() {}\n// ... existing code ...";
    let frags = segment_edit(edit);
    assert_eq!(frags, vec![strings(&["fn added() {}"])]);
    let out = apply_edit("fn a() {}\nfn b() {}", edit);
    assert!(!out.contains("existing code"));
    assert_eq!(out, "fn added() {}\nfn b() {}");
}

#[test]
fn marker_matching_ignores_case_and_spacing() {
    let edit = "one\n  //...EXISTING   Code...  \ntwo\n//  ...  existing code  ...\n\n// ... existing code ...";
    let frags = segment_edit(edit);
    assert_eq!(frags, vec![strings(&["one"]), strings(&["two"]), strings(&[""])]);
}

#[test]
fn segmentation_without_markers_or_with_only_markers() {
    assert_eq!(segment_edit("x\ny"), vec![strings(&["x", "y"])]);
    let only = "// ... existing code ...\n// ... existing code ...";
    assert_eq!(segment_edit(only), vec![strings(&["// ... existing code ...", "// ... existing code ..."])]);
    assert!(segment_edit("").is_empty());
    let lines = strings(&["a", "m", "m", "b"]);
    let marks = vec![false, true, true, false];
    assert_eq!(segment_marked(&lines, &marks), vec![strings(&["a"]), strings(&["b"])]);
}

#[test]
fn empty_edit_leaves_text_unchanged() {
    assert_eq!(apply_edit("a\nb", ""), "a\nb");
}

#[test]
fn diff_round_trip() {
    let old = "a\nb\nc\n";
    let new = "a\nx\nc\nd\n";
    let d = diff_lines(old, new);
    assert_eq!(old_side(&d), old);
    assert_eq!(new_side(&d), new);
    assert!(d.iter().any(|l| l.tag == DiffTag::Removed && l.text == "b\n"));
    assert!(d.iter().any(|l| l.tag == DiffTag::Added && l.text == "x\n"));
    assert!(d.iter().any(|l| l.tag == DiffTag::Unchanged && l.text == "a\n"));
}

#[test]
fn diff_is_minimal_and_line_by_line() {
    let d = diff_lines("a\nb\nc\n", "a\nc\n");
    let tags: Vec<DiffTag> = d.iter().map(|l| l.tag).collect();
    assert_eq!(tags, vec![DiffTag::Unchanged, DiffTag::Removed, DiffTag::Unchanged]);
    let d = diff_lines("x\r\ny\rz", "x\r\nz");
    let old_lines: Vec<String> = d.iter().filter(|l| l.tag != DiffTag::Added).map(|l| l.text.clone()).collect();
    assert_eq!(old_lines, strings(&["x\r\n", "y\r", "z"]));
    assert_eq!(d.iter().filter(|l| l.tag == DiffTag::Unchanged).count(), 2);
}

#[test]
fn two_marker_edit_of_existing_file() {
    let edit = "// ... existing code ...\nb\nB2\n// ... existing code ...";
    let plan = plan_edit("f.txt", Some("a\nb\nc"), edit);
    assert!(plan.result.success);
    assert!(!plan.result.is_new);
    assert_eq!(plan.content, "b\nB2\nc");
}

#[test]
fn modify_reports_diff_against_original() {
    let original = "fn a() {\n    1\n}\n";
    let plan = plan_edit("f.rs", Some(original), "fn a() {\n    2\n}");
    assert_eq!(plan.content, "fn a() {\n    2\n}");
    assert!(!plan.result.is_new);
    assert_eq!(old_side(&plan.result.changes), original);
    assert_eq!(new_side(&plan.result.changes), plan.content);
    let rendered = plan.result.rendered_changes();
    assert!(rendered.contains(&"-     1\n".to_string()));
    assert!(rendered.contains(&"  fn a() {\n".to_string()));
}

#[test]
fn lines_split_and_join() {
    assert_eq!(split_lines("a\r\nb\n\nc\n"), strings(&["a", "b", "", "c"]));
    assert_eq!(split_lines(""), strings(&[]));
    assert_eq!(split_lines("x"), strings(&["x"]));
    assert_eq!(join(&strings(&["a", "", "b"])), "a\n\nb");
    assert!(line_is_blank(" \t\u{a0}"));
    assert!(!line_is_blank(" x "));
}

#[test]
fn sequential_fragments_see_earlier_splices() {
    let buf = strings(&["a", "b", "c", "d", "e", "f", "g", "h", "i", "j"]);
    let blocks = vec![strings(&["h", "H"]), strings(&["b", "B"])];
    let out = apply_fragments(buf, &blocks);
    assert_eq!(out, strings(&["b", "B", "c", "d", "h", "H", "g", "h", "i", "j"]));
}

#[test]
fn markers_given_as_flags() {
    let edit = strings(&["SKIP", "b", "Y", "SKIP"]);
    let out = apply_marked_edit("a\nb\nc", &edit, &vec![true, false, false, true]);
    assert_eq!(out, "b\nY\nc");
    let flags = marker_lines(&strings(&["x", "// ... existing code ...", "// existing code"]));
    assert_eq!(flags, vec![false, true, false]);
}
