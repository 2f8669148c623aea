use std::io::Cursor;

use termdiff::{
    diff, diff_with_algorithm, Algorithm, ArrowsTheme, Change, ChangeTag, DiffAlgorithm,
    DiffAlgorithmFactory, DiffOp, DrawDiff, MyersDiff, SimilarDiff,
};

/// Identical inputs produce one `Equal` operation spanning every line, and
/// no `Delete` or `Insert` at all.
#[test]
fn identical_inputs_single_equal_operation() {
    let engine = MyersDiff::default();
    let ops = engine.ops("a\nb\nc", "a\nb\nc");
    assert_eq!(ops.len(), 1);
    assert_eq!(ops[0].tag(), ChangeTag::Equal);
    assert_eq!(ops[0].old_start(), 0);
    assert_eq!(ops[0].old_len(), 3);
    assert_eq!(ops[0].new_start(), 0);
    assert_eq!(ops[0].new_len(), 3);

    let ops = engine.ops("", "");
    assert_eq!(ops.len(), 0);
}

/// The reference engine agrees on the identical-inputs shape.
#[test]
fn identical_inputs_single_equal_operation_reference() {
    let engine = SimilarDiff::default();
    let ops = engine.ops("a\nb\nc", "a\nb\nc");
    assert_eq!(ops.len(), 1);
    assert_eq!(ops[0].tag(), ChangeTag::Equal);
    assert_eq!(ops[0].old_len(), 3);
}

/// The old-side spans of the operations reconstruct the old lines and the
/// new-side spans the new lines, contiguously and in order.
#[test]
fn operations_partition_both_sides() {
    for engine in [
        DiffAlgorithmFactory::create(Algorithm::Myers),
        DiffAlgorithmFactory::create(Algorithm::Similar),
    ] {
        let old = "x\ny\nz";
        let new = "x\nq\nz\nw";
        let ops = engine.ops(old, new);
        let mut old_pos = 0;
        let mut new_pos = 0;
        for op in &ops {
            assert_eq!(op.old_start(), old_pos);
            assert_eq!(op.new_start(), new_pos);
            old_pos += op.old_len();
            new_pos += op.new_len();
        }
        assert_eq!(old_pos, 3, "old spans cover every old line exactly once");
        assert_eq!(new_pos, 4, "new spans cover every new line exactly once");
    }
}

/// Keeping the unchanged and inserted lines of the rendered diff yields the
/// new text's lines; keeping unchanged and deleted lines yields the old.
#[test]
fn rendered_diff_round_trip() {
    let old = "x\ny\nz";
    let new = "x\nq\nz";
    let theme = ArrowsTheme::default();
    let output = DrawDiff::new(old, new, &theme).render();

    let mut reconstructed_new: Vec<&str> = Vec::new();
    let mut reconstructed_old: Vec<&str> = Vec::new();
    for line in output.lines().skip(1) {
        let (prefix, rest) = line.split_at(1);
        if prefix == " " || prefix == ">" {
            reconstructed_new.push(rest);
        }
        if prefix == " " || prefix == "<" {
            reconstructed_old.push(rest);
        }
    }
    assert_eq!(reconstructed_new, new.lines().collect::<Vec<_>>());
    assert_eq!(reconstructed_old, old.lines().collect::<Vec<_>>());
}

/// A single-line replacement yields exactly one deleted block directly
/// followed by one inserted block, not per-character operations.
#[test]
fn single_line_replace_is_one_block_pair() {
    let engine = MyersDiff::default();
    let ops = engine.ops("abc", "abxc");
    assert_eq!(ops.len(), 2);
    assert_eq!(ops[0].tag(), ChangeTag::Delete);
    assert_eq!(ops[0].old_len(), 1);
    assert_eq!(ops[1].tag(), ChangeTag::Insert);
    assert_eq!(ops[1].new_len(), 1);
}

/// The engine's script never deletes and inserts more lines than needed:
/// swapping two lines costs two edits, replacing the middle line costs two.
#[test]
fn edit_script_is_minimal() {
    let engine = MyersDiff::default();

    let cost = |ops: &Vec<DiffOp>| -> usize {
        ops.iter()
            .map(|op| match op.tag() {
                ChangeTag::Delete => op.old_len(),
                ChangeTag::Insert => op.new_len(),
                ChangeTag::Equal => 0,
            })
            .sum()
    };

    let ops = engine.ops("a\nb", "b\na");
    assert_eq!(cost(&ops), 2);

    let ops = engine.ops("a\nb\nc", "a\nq\nc");
    assert_eq!(cost(&ops), 2);

    let ops = engine.ops("a\nb\nc\nd", "a\nc\nd");
    assert_eq!(cost(&ops), 1);
}

/// The scenario from the specification: deleting the middle line and
/// gaining a trailing newline renders one block per changed line, with the
/// trailing-newline marker on the inserted side.
#[test]
fn arrows_scenario_exact_output() {
    let old = "a\nb\nc";
    let new = "a\nc\n";
    let mut buffer = Cursor::new(Vec::new());
    let theme = ArrowsTheme::default();

    diff(&mut buffer, old, new, &theme).unwrap();

    let output = String::from_utf8(buffer.into_inner()).expect("Not valid UTF-8");
    assert_eq!(output, "< left / > right\n a\n<b\n<c\n>c\u{240a}\n");
}

/// The trailing-newline marker appears on both sides of a pure
/// trailing-newline difference.
#[test]
fn trailing_newline_difference_exact_output() {
    let theme = ArrowsTheme::default();
    let output = DrawDiff::new("line\n", "line", &theme).render();
    assert_eq!(output, "< left / > right\n<line\u{240a}\n>line\n");
}

/// Both engines agree byte for byte on an input large enough for the
/// engine's large-input path.
#[test]
fn large_inputs_byte_identical_engines() {
    let mut old = String::new();
    let mut new = String::new();
    for i in 0..120 {
        old.push_str(&format!("line {i}\n"));
        if i == 60 {
            new.push_str("changed\n");
        } else {
            new.push_str(&format!("line {i}\n"));
        }
    }
    let theme = ArrowsTheme::default();
    let myers = DrawDiff::with_algorithm(&old, &new, &theme, Algorithm::Myers).render();
    let similar = DrawDiff::with_algorithm(&old, &new, &theme, Algorithm::Similar).render();
    assert_eq!(myers, similar);
    assert!(myers.contains("<line 60"));
    assert!(myers.contains(">changed"));
}

/// Lines joined by carriage-return-newline pairs lose the carriage return
/// exactly as the standard line splitting does.
#[test]
fn crlf_lines_are_diffed_by_content() {
    let theme = ArrowsTheme::default();
    let output =
        DrawDiff::with_algorithm("a\r\nb\r\n", "a\r\nc\r\n", &theme, Algorithm::Myers).render();
    assert_eq!(output, "< left / > right\n a\n<b\n>c\n");
}

/// A change accumulates fragments and flags through its builder methods.
#[test]
fn change_builder_accessors() {
    let mut change = Change::new(ChangeTag::Delete);
    assert_eq!(change.tag(), ChangeTag::Delete);
    assert!(change.values().is_empty());
    assert!(!change.missing_newline());

    change.add_value(true, "brown".to_string());
    change.add_value(false, " fox".to_string());
    change.set_missing_newline(true);

    assert_eq!(change.values().len(), 2);
    assert_eq!(change.values()[0], (true, "brown".to_string()));
    assert_eq!(change.values()[1], (false, " fox".to_string()));
    assert!(change.missing_newline());
}

/// A diff operation reports back exactly what it was built from.
#[test]
fn diff_op_accessors() {
    let op = DiffOp::new(ChangeTag::Equal, 3, 4, 5, 4);
    assert_eq!(op.tag(), ChangeTag::Equal);
    assert_eq!(op.old_start(), 3);
    assert_eq!(op.old_len(), 4);
    assert_eq!(op.new_start(), 5);
    assert_eq!(op.new_len(), 4);
}

/// The factory hands out a working engine for each algorithm.
#[test]
fn factory_creates_working_engines() {
    let myers = DiffAlgorithmFactory::create(Algorithm::Myers);
    let ops = myers.ops("a", "b");
    assert_eq!(ops.len(), 2);

    let similar = DiffAlgorithmFactory::create(Algorithm::Similar);
    let ops = similar.ops("a", "b");
    assert_eq!(ops.len(), 2);
}

/// The inline changes of one operation cover exactly the lines of its span.
#[test]
fn inline_changes_cover_operation_span() {
    for engine in [
        DiffAlgorithmFactory::create(Algorithm::Myers),
        DiffAlgorithmFactory::create(Algorithm::Similar),
    ] {
        let old = "a\nb\nc";
        let new = "a\nx\nc";
        let ops = engine.ops(old, new);
        let mut total = 0;
        for op in &ops {
            let changes = engine.iter_inline_changes(old, new, op);
            let expected = match op.tag() {
                ChangeTag::Insert => op.new_len(),
                _ => op.old_len(),
            };
            assert_eq!(changes.len(), expected);
            for change in &changes {
                assert_eq!(change.tag(), op.tag());
                assert!(!change.values().is_empty());
            }
            total += changes.len();
        }
        assert_eq!(total, 4);
    }
}

/// An operation whose equal span escapes the new side yields no changes
/// instead of walking outside the texts.
#[test]
fn inline_changes_out_of_bounds_operation() {
    let engine = SimilarDiff::default();
    let op = DiffOp::new(ChangeTag::Equal, 0, 1, usize::MAX, 1);
    let changes = engine.iter_inline_changes("a", "a", &op);
    assert!(changes.is_empty());

    let op = DiffOp::new(ChangeTag::Equal, usize::MAX, 1, 0, 1);
    let changes = engine.iter_inline_changes("a", "a", &op);
    assert!(changes.is_empty());

    let engine = MyersDiff::default();
    let op = DiffOp::new(ChangeTag::Insert, 0, 0, usize::MAX, 1);
    let changes = engine.iter_inline_changes("a", "a", &op);
    assert!(changes.is_empty());
}

/// Under a theme whose hooks pin their results, rendering is a function
/// of the inputs: repeated renders agree, and the default-algorithm entry
/// point writes the same bytes as naming that algorithm.
#[test]
fn rendering_is_deterministic_for_pinned_themes() {
    let old = "a\nb\nc";
    let new = "a\nc\n";
    let theme = ArrowsTheme::default();

    let drawer = DrawDiff::new(old, new, &theme);
    let first = drawer.render();
    let second = drawer.render();
    assert_eq!(first, second);

    let mut named = Cursor::new(Vec::new());
    diff_with_algorithm(&mut named, old, new, &theme, Algorithm::Similar).unwrap();
    let mut defaulted = Cursor::new(Vec::new());
    diff(&mut defaulted, old, new, &theme).unwrap();
    assert_eq!(named.into_inner(), defaulted.into_inner());
}
