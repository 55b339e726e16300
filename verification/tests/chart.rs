use stripchart::canvas::{braille, Canvas};
use stripchart::chart::{
    chart_lanes, flags, key_hints, lane_boxes, time_step_at, zoom_in, zoom_out, zoom_step_at, ZOOM_STEPS, Key, Steering, GUTTER, MAX_SPAN,
    MIN_SPAN, TIME_STEPS,
};
use stripchart::data::Recorder;
use stripchart::parse::parse_line;
use stripchart::screen::{Op, Screen, ScreenCell};
use stripchart::tint::Tint;

const SEC: u64 = 1_000_000_000;

fn row_text(s: &Screen, y: usize) -> String {
    s.cells[y * s.w..(y + 1) * s.w].iter().map(|c| c.ch).collect()
}

fn num(s: &str) -> Option<f64> {
    s.parse().ok()
}

fn live(span: u64) -> Steering {
    Steering { span, pan: 0, paused: false, lanes: false, held: false }
}

#[test]
fn screen_put_and_text() {
    let mut s = Screen::new(4, 2);
    s.put(1, 0, 'x', Tint::Red);
    s.put(9, 0, 'y', Tint::Red);
    assert_eq!(row_text(&s, 0), " x  ");
    assert_eq!(s.cells[1], ScreenCell { ch: 'x', fg: Tint::Red, bold: false });
    let end = s.text(2, 1, "hello", Tint::Grey);
    assert_eq!(end, 4);
    assert_eq!(row_text(&s, 1), "  he");
    assert_eq!(s.styled(0, 5, "below", Tint::Red, true), 0);
    let end = s.styled(0, 1, "ab", Tint::White, true);
    assert_eq!(end, 2);
    assert!(s.cells[4].bold);
}

#[test]
fn paint_groups_runs() {
    let mut s = Screen::new(3, 2);
    s.styled(0, 0, "ab", Tint::Red, false);
    s.styled(2, 0, "c", Tint::Red, true);
    let ops = s.paint_ops();
    assert_eq!(
        ops,
        vec![
            Op::MoveTo(0),
            Op::Fg(Tint::Red),
            Op::Print("ab".to_string()),
            Op::Bold(true),
            Op::Print("c".to_string()),
            Op::MoveTo(1),
            Op::Bold(false),
            Op::Fg(Tint::Reset),
            Op::Print("   ".to_string()),
        ]
    );
}

#[test]
fn canvas_dots_and_braille() {
    let mut cv = Canvas::new(2, 1);
    cv.set(0, 0, Tint::Red);
    cv.set(3, 3, Tint::Cyan);
    cv.set(-1, 0, Tint::Red);
    cv.set(4, 0, Tint::Red);
    assert_eq!(cv.bits, vec![0x01, 0x80]);
    assert_eq!(cv.color, vec![Tint::Red, Tint::Cyan]);
    assert_eq!(braille(0x01), '⠁');
    assert_eq!(braille(0), '\u{2800}');
    assert_eq!(braille(0xff), '⣿');
}

#[test]
fn canvas_strokes() {
    let mut cv = Canvas::new(2, 1);
    cv.line(0, 0, 3, 0, Tint::Green);
    assert_eq!(cv.bits, vec![0x09, 0x09]);
    let mut steep = Canvas::new(1, 1);
    steep.line(0, 0, 1, 3, Tint::Red);
    assert_eq!(steep.bits, vec![0xA3]);
    let mut back = Canvas::new(1, 1);
    back.line(1, 3, 0, 0, Tint::Red);
    assert_eq!(back.bits[0] & 0x81, 0x81);
    let mut off = Canvas::new(1, 1);
    off.line(-5, 0, 1, 0, Tint::Red);
    assert_eq!(off.bits, vec![0x09]);
}

#[test]
fn lanes_for_chart() {
    assert_eq!(chart_lanes(true, &vec![0, 2], 10), vec![vec![0], vec![2]]);
    assert_eq!(chart_lanes(true, &vec![0, 2], 4), vec![vec![0, 2]]);
    assert_eq!(chart_lanes(false, &vec![0, 2], 10), vec![vec![0, 2]]);
    assert_eq!(chart_lanes(true, &vec![1], 10), vec![vec![1]]);
}

#[test]
fn lanes_fill_the_plot() {
    assert_eq!(lane_boxes(10, 3), vec![(1, 3), (5, 3), (9, 2)]);
    assert_eq!(lane_boxes(7, 1), vec![(1, 7)]);
    let b = lane_boxes(20, 4);
    let (top, h) = b[3];
    assert_eq!(top + h, 21);
}

#[test]
fn grid_flags() {
    assert_eq!(flags(5, &vec![1, 3, 3]), vec![false, true, false, true, false]);
    assert_eq!(flags(2, &vec![]), vec![false, false]);
}

#[test]
fn round_steps() {
    assert_eq!(time_step_at(0), 1_000_000);
    assert_eq!(time_step_at(13), 15 * SEC);
    assert_eq!(time_step_at(TIME_STEPS - 1), 86_400 * SEC);
}

#[test]
fn zooming() {
    assert_eq!(zoom_out(10 * SEC), 20 * SEC);
    assert_eq!(zoom_out(20 * SEC), 50 * SEC);
    assert_eq!(zoom_out(50 * SEC), 100 * SEC);
    assert_eq!(zoom_in(100 * SEC), 50 * SEC);
    assert_eq!(zoom_in(60 * SEC), 50 * SEC);
    assert_eq!(zoom_out(60 * SEC), 100 * SEC);
    assert_eq!(zoom_in(MIN_SPAN), MIN_SPAN);
    assert_eq!(zoom_in(150_000_000), MIN_SPAN);
    assert_eq!(zoom_in(50_000_000), 50_000_000);
    assert_eq!(zoom_out(MAX_SPAN), MAX_SPAN);
    assert_eq!(zoom_in(MAX_SPAN), 500_000 * SEC);
    assert_eq!(zoom_out(500_000 * SEC), MAX_SPAN);
    assert_eq!(zoom_out(86_400 * SEC), 100_000 * SEC);
    assert_eq!(zoom_out(0), 1_000_000);
    assert_eq!(zoom_out(45 * SEC), 50 * SEC);
}

#[test]
fn one_two_five() {
    assert_eq!(zoom_step_at(0), 1_000_000);
    assert_eq!(zoom_step_at(1), 2_000_000);
    assert_eq!(zoom_step_at(2), 5_000_000);
    assert_eq!(zoom_step_at(9), SEC);
    assert_eq!(zoom_step_at(ZOOM_STEPS - 1), 500_000 * SEC);
}

#[test]
fn keys_steer() {
    let mut rec: Recorder<f64> = Recorder::new(vec!["a".to_string(), "b".to_string()], 10);
    rec.ingest(0.5, parse_line("1 2", &num));
    let mut st = live(60 * SEC);
    assert!(st.key(Key::Char(' '), false, &mut rec));
    assert!(st.paused);
    assert!(st.key(Key::Left, false, &mut rec));
    assert_eq!(st.pan, 6 * SEC);
    assert!(st.key(Key::PageUp, false, &mut rec));
    assert_eq!(st.pan, 66 * SEC);
    assert!(st.key(Key::PageDown, false, &mut rec));
    assert!(st.key(Key::Right, false, &mut rec));
    assert_eq!(st.pan, 0);
    assert!(st.key(Key::End, false, &mut rec));
    assert_eq!(st, live(60 * SEC));
    assert!(st.key(Key::Right, false, &mut rec));
    assert_eq!(st.pan, 0);
    assert!(st.key(Key::Char('+'), false, &mut rec));
    assert_eq!(st.span, 50 * SEC);
    assert!(st.key(Key::Char('-'), false, &mut rec));
    assert_eq!(st.span, 100 * SEC);
    assert!(st.key(Key::Char('+'), false, &mut rec));
    assert_eq!(st.span, 50 * SEC);
    assert!(st.key(Key::Char('='), false, &mut rec));
    assert_eq!(st.span, 20 * SEC);
    assert!(st.key(Key::Char('_'), false, &mut rec));
    assert_eq!(st.span, 50 * SEC);
    assert!(st.key(Key::Char('a'), false, &mut rec));
    assert!(st.held);
    assert!(st.key(Key::Char('s'), false, &mut rec));
    assert!(st.lanes && !st.held);
    assert!(st.key(Key::Char('a'), false, &mut rec));
    assert!(st.key(Key::Char('2'), false, &mut rec));
    assert!(!rec.channels[1].visible);
    assert!(!st.held);
    assert_eq!(rec.visible(), vec![0]);
    assert!(st.key(Key::Char('9'), false, &mut rec));
    assert_eq!(rec.channels.len(), 2);
    assert!(st.key(Key::Char('c'), false, &mut rec));
    assert!(rec.history.is_empty());
    assert_eq!(rec.total, 1);
    assert!(!st.key(Key::Char('c'), true, &mut rec));
    assert!(!st.key(Key::Char('q'), false, &mut rec));
    assert!(!st.key(Key::Esc, false, &mut rec));
    assert!(st.key(Key::Other, false, &mut rec));
}

#[test]
fn pause_then_resume_goes_live() {
    let mut rec: Recorder<f64> = Recorder::new(vec![], 10);
    let mut st = live(60 * SEC);
    st.key(Key::Left, false, &mut rec);
    st.key(Key::Char('p'), false, &mut rec);
    assert_eq!(st, live(60 * SEC));
}

#[test]
fn hints_follow_state() {
    let st = Steering { span: SEC, pan: 0, paused: true, lanes: true, held: true };
    let h = key_hints(&st);
    assert_eq!(h.len(), 8);
    assert_eq!(h[1], ("space", "resume"));
    assert_eq!(h[4], ("s", "overlay"));
    assert_eq!(h[5], ("a", "autoscale"));
    let h = key_hints(&live(SEC));
    assert_eq!(h[1], ("space", "pause"));
    assert_eq!(h[4], ("s", "lanes"));
    assert_eq!(h[5], ("a", "hold scale"));
}

#[test]
fn lane_cells() {
    let mut s = Screen::new(12, 2);
    let mut cv = Canvas::new(2, 2);
    cv.set(0, 0, Tint::Red);
    s.plot_lane(0, &cv, &vec![true, false], &vec![false, true]);
    assert_eq!(GUTTER, 10);
    assert_eq!(row_text(&s, 0), "         │⠁┼");
    assert_eq!(row_text(&s, 1), "         │ ┊");
    assert_eq!(s.cells[10].fg, Tint::Red);
    assert_eq!(s.cells[11].fg, Tint::DarkGrey);
}

#[test]
fn scale_marks_in_gutter() {
    let mut s = Screen::new(12, 4);
    let marks = vec![
        (0, "10".to_string()),
        (2, "5".to_string()),
        (2, "4.5".to_string()),
        (3, "123456789".to_string()),
    ];
    s.scale_marks(0, &marks);
    assert_eq!(row_text(&s, 0), "      10 ┤  ");
    assert_eq!(row_text(&s, 1), "            ");
    assert_eq!(row_text(&s, 2), "       5 ┤  ");
    assert_eq!(row_text(&s, 3), "12345678 ┤  ");
}

#[test]
fn time_labels_skip_overlaps() {
    let mut s = Screen::new(30, 3);
    let labels = vec![(0, "0:00".to_string()), (2, "0:01".to_string()), (10, "0:02".to_string()), (19, "0:03".to_string())];
    s.time_axis(1, &labels);
    assert_eq!(row_text(&s, 1), format!("{}0:01{}0:02{}", " ".repeat(10), " ".repeat(4), " ".repeat(8)));
}

#[test]
fn status_line_fits_hints() {
    let mut s = Screen::new(20, 1);
    s.status(0, &live(SEC), "R", true);
    assert_eq!(row_text(&s, 0), format!(" q quit{}R", " ".repeat(12)));
    assert!(s.cells[1].bold);
    assert_eq!(s.cells[1].fg, Tint::White);
    assert_eq!(s.cells[19].fg, Tint::Grey);
    let mut t = Screen::new(20, 1);
    t.status(0, &live(SEC), "R", false);
    assert_eq!(t.cells[19].fg, Tint::Yellow);
}

#[test]
fn header_row() {
    let mut rec: Recorder<f64> = Recorder::new(vec!["a".to_string(), "b".to_string()], 10);
    rec.toggle(1);
    let mut s = Screen::new(40, 1);
    s.header(false, true, "60s", None, &rec.channels, &vec!["1.000".to_string(), "—".to_string()]);
    assert_eq!(row_text(&s, 0).trim_end(), " ● REC  span 60s │ ■ a 1.000  □ b —");
    assert_eq!(s.cells[18].fg, Tint::Red);
    assert_eq!(s.cells[23].fg, Tint::White);
    assert_eq!(s.cells[29].fg, Tint::DarkGrey);
    let mut p = Screen::new(50, 1);
    let none: Recorder<f64> = Recorder::new(vec![], 10);
    p.header(true, false, "5m", Some("30s"), &none.channels, &vec![]);
    assert_eq!(row_text(&p, 0).trim_end(), " ❚❚ PAUSED  span 5m ◂30s │ no channels yet");
}

#[test]
fn rule_across() {
    let mut s = Screen::new(3, 2);
    s.rule(1);
    assert_eq!(row_text(&s, 0), "   ");
    assert_eq!(row_text(&s, 1), "───");
}

#[test]
fn digit_twice_restores() {
    let mut rec: Recorder<f64> = Recorder::new(vec!["a".to_string()], 10);
    let mut st = live(SEC);
    st.key(Key::Char('1'), false, &mut rec);
    assert!(!rec.channels[0].visible);
    assert!(rec.visible().is_empty());
    st.key(Key::Char('1'), false, &mut rec);
    assert!(rec.channels[0].visible);
    assert_eq!(st, live(SEC));
}

#[test]
fn paint_prints_every_cell() {
    let mut s = Screen::new(4, 3);
    s.text(0, 0, "ab", Tint::Red);
    s.styled(1, 1, "c", Tint::Cyan, true);
    s.text(3, 2, "d", Tint::Red);
    let printed: String = s
        .paint_ops()
        .into_iter()
        .filter_map(|op| match op {
            Op::Print(t) => Some(t),
            _ => None,
        })
        .collect();
    let cells: String = s.cells.iter().map(|c| c.ch).collect();
    assert_eq!(printed, cells);
    assert_eq!(printed, "ab   c     d");
}
