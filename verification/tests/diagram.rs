use binary_tree::binary_tree::BinaryTree;
use binary_tree::layout::byte_label;
use binary_tree::layout::render_labels;

// The diagram written with the standard library's own formatting, to hold
// the library's text against.
fn expected_diagram(labels: &[Option<String>]) -> String {
    let max_depth = 6;
    let width = 3;
    let max_width = 32 * width + 32;
    let mut out = String::new();
    let mut i = 0;
    let mut x = 1;
    let mut depth = 0;
    while i < labels.len() {
        let end = (x + i).min(labels.len());
        let spacing = max_width / 2_usize.pow(depth as u32) - width;
        out.push('\n');
        for (j, label) in labels[i..end].iter().enumerate() {
            out.push_str(&" ".repeat(if j == 0 { spacing / 2 } else { spacing }));
            match label {
                Some(text) => out.push_str(text),
                None => out.push_str(&"_".repeat(width)),
            }
        }
        out.push('\n');
        if depth != max_depth - 1 {
            let spacing = max_width / 2_usize.pow(depth as u32) - (width + 2);
            for j in 1..=x {
                out.push_str(&" ".repeat(if j == 1 { spacing / 2 } else { spacing }));
                out.push_str(&format!("/{:0width$}\\", " ", width = width));
            }
        }
        out.push('\n');
        i += x;
        x *= 2;
        depth += 1;
    }
    out
}

fn labels_of(tree: &BinaryTree<u8>) -> Vec<Option<String>> {
    tree.breadth_first_snapshot()
        .into_iter()
        .map(|slot| slot.map(|value| format!("{:03}", value)))
        .collect()
}

#[test]
fn byte_label_is_three_decimal_digits() {
    assert_eq!(byte_label(0), "000");
    assert_eq!(byte_label(7), "007");
    assert_eq!(byte_label(42), "042");
    assert_eq!(byte_label(100), "100");
    assert_eq!(byte_label(255), "255");
}

#[test]
fn byte_label_agrees_with_zero_padded_formatting() {
    for value in 0..=255u8 {
        assert_eq!(byte_label(value), format!("{:03}", value));
    }
}

#[test]
fn diagram_of_no_labels_is_empty() {
    assert_eq!(render_labels(&[]), "");
}

#[test]
fn diagram_of_one_label() {
    let root = [Some(String::from("005"))];
    let expected = format!("\n{}005\n{}/   \\\n", " ".repeat(62), " ".repeat(61));
    assert_eq!(render_labels(&root), expected);
}

#[test]
fn diagram_of_one_absent_slot() {
    let expected = format!("\n{}___\n{}/   \\\n", " ".repeat(62), " ".repeat(61));
    assert_eq!(render_labels(&[None]), expected);
}

#[test]
fn diagram_of_two_levels() {
    let labels = [Some(String::from("005")), Some(String::from("003")), None];
    let mut expected = String::new();
    expected.push('\n');
    expected.push_str(&" ".repeat(62));
    expected.push_str("005\n");
    expected.push_str(&" ".repeat(61));
    expected.push_str("/   \\\n");
    expected.push('\n');
    expected.push_str(&" ".repeat(30));
    expected.push_str("003");
    expected.push_str(&" ".repeat(61));
    expected.push_str("___\n");
    expected.push_str(&" ".repeat(29));
    expected.push_str("/   \\");
    expected.push_str(&" ".repeat(59));
    expected.push_str("/   \\\n");
    assert_eq!(render_labels(&labels), expected);
}

#[test]
fn diagram_of_a_level_that_ends_early() {
    let labels = [Some(String::from("005")), Some(String::from("003"))];
    let mut expected = String::new();
    expected.push('\n');
    expected.push_str(&" ".repeat(62));
    expected.push_str("005\n");
    expected.push_str(&" ".repeat(61));
    expected.push_str("/   \\\n");
    expected.push('\n');
    expected.push_str(&" ".repeat(30));
    expected.push_str("003\n");
    expected.push_str(&" ".repeat(29));
    expected.push_str("/   \\");
    expected.push_str(&" ".repeat(59));
    expected.push_str("/   \\\n");
    assert_eq!(render_labels(&labels), expected);
}

#[test]
fn diagram_gaps_follow_the_level() {
    let labels: Vec<Option<String>> = vec![None; 63];
    let text = render_labels(&labels);
    let lines: Vec<&str> = text.split('\n').collect();
    // An empty line, the cells and the connectors for each of six levels; the
    // text ends with a line break, so one empty piece follows.
    assert_eq!(lines.len(), 19);
    for level in 0..6 {
        let cells = lines[3 * level + 1];
        let gap = 128 / (1 << level) - 3;
        let mut expected = String::new();
        for index in 0..(1 << level) {
            expected.push_str(&" ".repeat(if index == 0 { gap / 2 } else { gap }));
            expected.push_str("___");
        }
        assert_eq!(lines[3 * level], "");
        assert_eq!(cells, expected);
    }
    assert_eq!(lines[17], "");
    assert_eq!(lines[16].len(), 32 * 3 + 31);
}

#[test]
fn diagram_has_six_value_rows_and_five_connector_rows() {
    let tree = BinaryTree::from_array(&[50u8, 20, 70, 10, 30, 60, 80]);
    let text = tree.render();
    let lines: Vec<&str> = text.split('\n').collect();
    assert_eq!(lines.len(), 19);
    let mut value_rows = 0;
    let mut connector_rows = 0;
    for level in 0..6 {
        if !lines[3 * level + 1].is_empty() {
            value_rows += 1;
        }
        if lines[3 * level + 2].contains('/') {
            connector_rows += 1;
            assert_eq!(lines[3 * level + 2].matches("/   \\").count(), 1 << level);
        }
    }
    assert_eq!(value_rows, 6);
    assert_eq!(connector_rows, 5);
    assert_eq!(lines[17], "");
}

#[test]
fn diagram_agrees_with_standard_formatting() {
    let mut cases: Vec<Vec<Option<String>>> = Vec::new();
    for length in 0..=63usize {
        cases.push(
            (0..length)
                .map(|index| if index % 3 == 1 { None } else { Some(format!("{:03}", index)) })
                .collect(),
        );
    }
    for labels in cases {
        assert_eq!(render_labels(&labels), expected_diagram(&labels));
    }
}

#[test]
fn diagram_takes_labels_of_any_width() {
    let labels = [Some(String::from("1")), Some(String::from("70000")), Some(String::new())];
    assert_eq!(render_labels(&labels), expected_diagram(&labels));
}

#[test]
fn render_of_five_three_eight_three() {
    let tree = BinaryTree::from_array(&[5u8, 3, 8, 3]);
    let text = tree.render();
    let lines: Vec<&str> = text.split('\n').collect();
    assert_eq!(lines[1], format!("{}005", " ".repeat(62)));
    assert_eq!(lines[4], format!("{}003{}008", " ".repeat(30), " ".repeat(61)));
    assert_eq!(
        lines[7],
        format!("{0}___{1}003{1}___{1}___", " ".repeat(14), " ".repeat(29))
    );
    assert_eq!(text, expected_diagram(&labels_of(&tree)));
}

#[test]
fn render_of_empty_tree_shows_absent_slots_only() {
    let tree: BinaryTree<u8> = BinaryTree::from_array(&[]);
    let text = tree.render();
    let absent: Vec<Option<String>> = vec![None; 63];
    assert_eq!(text, render_labels(&absent));
    assert_eq!(text.matches("___").count(), 63);
    assert!(!text.contains(|c: char| c.is_ascii_digit()));
}

#[test]
fn render_twice_gives_the_same_text() {
    let input: Vec<u8> = vec![200, 13, 77, 13, 255, 0, 91, 140, 7, 64];
    let tree = BinaryTree::from_array(&input);
    let first = tree.render();
    let second = tree.render();
    assert_eq!(first.as_bytes(), second.as_bytes());
    let again = BinaryTree::from_array(&input);
    assert_eq!(again.render(), first);
}

#[test]
fn render_agrees_with_standard_formatting() {
    let inputs: Vec<Vec<u8>> = vec![
        vec![12, 3, 22, 4, 5, 9],
        vec![128, 64, 192, 32, 96, 160, 224, 16, 48, 80, 112, 144, 176, 208, 240],
        (0..40).collect(),
        (0..40).rev().collect(),
        vec![9, 9, 9, 9],
    ];
    for input in inputs {
        let tree = BinaryTree::from_array(&input);
        assert_eq!(tree.render(), expected_diagram(&labels_of(&tree)));
    }
}
