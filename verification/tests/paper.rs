use stripchart::paper::{
    grid_cols, lane_groups, lane_width, legend, put_str, row, ruler, runs, scale_labels, LaneLabels, Trace,
};
use stripchart::tint::Tint;

fn text(cells: &[(char, Tint)]) -> String {
    cells.iter().map(|c| c.0).collect()
}

#[test]
fn lane_widths() {
    assert_eq!(lane_width(80, 1), 69);
    assert_eq!(lane_width(80, 3), 22);
    assert_eq!(lane_width(10, 2), 5);
    assert_eq!(lane_width(0, 1), 5);
}

#[test]
fn quarter_divisions() {
    assert_eq!(grid_cols(9), [0, 2, 4, 6, 8]);
    assert_eq!(grid_cols(69), [0, 17, 34, 51, 68]);
    assert_eq!(grid_cols(6), [0, 1, 3, 4, 5]);
}

#[test]
fn lanes_split_or_shared() {
    let split = lane_groups(true, 3);
    assert_eq!(split, vec![vec![0], vec![1], vec![2]]);
    let shared = lane_groups(false, 3);
    assert_eq!(shared, vec![vec![0, 1, 2]]);
}

#[test]
fn put_str_clips() {
    let mut cells = vec![(' ', Tint::Reset); 5];
    let end = put_str(&mut cells, 3, "abc", Tint::Red);
    assert_eq!(end, 5);
    assert_eq!(text(&cells), "   ab");
    assert_eq!(cells[3], ('a', Tint::Red));
    assert_eq!(put_str(&mut cells, 7, "x", Tint::Red), 7);
}

#[test]
fn plain_and_marked_rows() {
    let plain = row(1, 9, false, "0:01.0", &vec![]);
    assert_eq!(text(&plain), format!("{}│ ┊ ┊ ┊ │", " ".repeat(11)));
    assert_eq!(plain[11].1, Tint::DarkGrey);
    let marked = row(1, 9, true, "0:01.0", &vec![]);
    assert_eq!(text(&marked), "    0:01.0 ├┈┼┈┼┈┼┈┤");
    assert_eq!(marked[4].1, Tint::Grey);
}

#[test]
fn pen_travel() {
    let right = row(1, 9, false, "", &vec![Trace { from: Some(13), cur: 17, color: Tint::Red }]);
    assert_eq!(text(&right), format!("{}│ ╰───╮ │", " ".repeat(11)));
    assert_eq!(right[14], ('─', Tint::Red));
    let left = row(1, 9, false, "", &vec![Trace { from: Some(17), cur: 13, color: Tint::Cyan }]);
    assert_eq!(text(&left), format!("{}│ ╭───╯ │", " ".repeat(11)));
    let still = row(1, 9, false, "", &vec![Trace { from: Some(15), cur: 15, color: Tint::Red }]);
    assert_eq!(still[15], ('│', Tint::Red));
    let down = row(1, 9, false, "", &vec![Trace { from: None, cur: 12, color: Tint::Green }]);
    assert_eq!(down[12], ('╷', Tint::Green));
}

#[test]
fn two_lanes_side_by_side() {
    let r = row(2, 5, false, "", &vec![]);
    assert_eq!(r.len(), 11 + 2 * 6 - 1);
    assert_eq!(text(&r), format!("{}│┊┊┊│ │┊┊┊│", " ".repeat(11)));
}

#[test]
fn ruler_row() {
    let r = ruler(1, 9);
    assert_eq!(text(&r), format!("{}┌─┬─┬─┬─┐", " ".repeat(11)));
}

#[test]
fn legend_row() {
    let r = legend(&vec![vec![0, 1]], &vec!["a".to_string(), "b".to_string()], 9);
    assert_eq!(text(&r), format!("{}■ a  ■ b ", " ".repeat(11)));
    assert_eq!(r[11].1, Tint::Red);
    assert_eq!(r[16].1, Tint::Cyan);
}

#[test]
fn scale_label_row() {
    let labels = vec![Some(LaneLabels { lo: "0".to_string(), mid: "5".to_string(), hi: "10".to_string() })];
    let r = scale_labels(&labels, 9);
    assert_eq!(text(&r), "   elapsed 0   5  10");
    let none = scale_labels(&vec![None], 9);
    assert_eq!(text(&none), format!("   elapsed{}", " ".repeat(10)));
}

#[test]
fn scale_labels_crowded_out() {
    let labels = vec![Some(LaneLabels { lo: "100.5".to_string(), mid: "150".to_string(), hi: "200.5".to_string() })];
    let r = scale_labels(&labels, 9);
    // the bottom label fills up to the middle; the others do not fit after it
    assert_eq!(text(&r), "   elapsed 100.5    ");
}

#[test]
fn runs_by_color() {
    let r = legend(&vec![vec![0, 1]], &vec!["a".to_string(), "b".to_string()], 9);
    let colored = runs(&r, true);
    let got: Vec<(Option<Tint>, String)> = colored.into_iter().map(|s| (s.color, s.text)).collect();
    assert_eq!(
        got,
        vec![
            (Some(Tint::Reset), " ".repeat(11)),
            (Some(Tint::Red), "■ a  ".to_string()),
            (Some(Tint::Cyan), "■ b".to_string()),
        ]
    );
    let plain = runs(&r, false);
    assert_eq!(plain.len(), 1);
    assert_eq!(plain[0].color, None);
    assert_eq!(plain[0].text, format!("{}■ a  ■ b", " ".repeat(11)));
    let empty = runs(&vec![(' ', Tint::Reset); 4], true);
    assert!(empty.is_empty());
}

#[test]
fn wide_lanes_and_many_lanes() {
    assert_eq!(grid_cols(2_000_001), [0, 500_000, 1_000_000, 1_500_000, 2_000_000]);
    assert_eq!(lane_width(80, 2000), 5);
    assert_eq!(lane_width(usize::MAX, 1), usize::MAX - 11);
    let r = ruler(1200, 5);
    assert_eq!(r.len(), 11 + 1200 * 6 - 1);
}

#[test]
fn lanes_ruled_over_a_long_label() {
    let r = row(1, 5, true, "1000:00:00.0", &vec![]);
    assert_eq!(text(&r), "1000:00:00.├┼┼┼┤");
    assert_eq!(r[11], ('├', Tint::DarkGrey));
    assert_eq!(r[10], ('.', Tint::Grey));
}
