use stripchart::data::Recorder;
use stripchart::parse::parse_line;

fn num(s: &str) -> Option<f64> {
    s.parse().ok()
}

fn ingest(r: &mut Recorder<f64>, line: &str) -> bool {
    r.ingest(0.0, parse_line(line, &num))
}

#[test]
fn channels_from_header_and_keys() {
    let mut r = Recorder::new(vec![], 100);
    assert!(!ingest(&mut r, "a b"));
    assert!(ingest(&mut r, "1 2"));
    assert!(ingest(&mut r, "c=3 b=4"));
    assert!(!ingest(&mut r, "oops"));
    let names: Vec<_> = r.channels.iter().map(|c| c.name.as_str()).collect();
    assert_eq!(names, ["a", "b", "c"]);
    let last = r.history.back().unwrap();
    assert!(last.get(0).is_none());
    assert_eq!((last.get(1), last.get(2)), (Some(4.0), Some(3.0)));
}

#[test]
fn cli_names_win() {
    let mut r = Recorder::new(vec!["x".into()], 100);
    ingest(&mut r, "a b");
    let names: Vec<_> = r.channels.iter().map(|c| c.name.as_str()).collect();
    assert_eq!(names, ["x", "b"]);
}

#[test]
fn history_is_bounded() {
    let mut r = Recorder::new(vec![], 3);
    for i in 0..10 {
        ingest(&mut r, &i.to_string());
    }
    assert_eq!(r.history.len(), 3);
    assert_eq!(r.history[0].get(0), Some(7.0));
    assert_eq!(r.total, 10);
}

#[test]
fn default_channel_names() {
    let mut r = Recorder::new(vec![], 10);
    assert!(ingest(&mut r, "1 2 3"));
    let names: Vec<_> = r.channels.iter().map(|c| c.name.as_str()).collect();
    assert_eq!(names, ["ch1", "ch2", "ch3"]);
    assert_eq!(r.channels[2].last, Some(3.0));
    assert!(r.channels.iter().all(|c| c.visible));
}

#[test]
fn header_after_first_sample_is_ignored() {
    let mut r = Recorder::new(vec![], 10);
    assert!(ingest(&mut r, "5"));
    assert!(!ingest(&mut r, "temp"));
    assert_eq!(r.channels[0].name, "ch1");
}

#[test]
fn limit_is_at_least_two() {
    let mut r = Recorder::new(vec![], 0);
    for i in 0..5 {
        r.ingest(i as f64, parse_line(&i.to_string(), &num));
    }
    assert_eq!(r.history.len(), 2);
    assert_eq!(r.history[0].t, 3.0);
    assert_eq!(r.history[1].t, 4.0);
}

#[test]
fn clear_keeps_channels_and_count() {
    let mut r = Recorder::new(vec!["a".into()], 10);
    ingest(&mut r, "1");
    ingest(&mut r, "2");
    r.clear();
    assert_eq!(r.history.len(), 0);
    assert_eq!(r.total, 2);
    assert_eq!(r.channels.len(), 1);
    assert_eq!(r.channels[0].last, Some(2.0));
}

#[test]
fn csv_header_lists_channels() {
    let mut r = Recorder::new(vec!["x".into()], 10);
    ingest(&mut r, "1 y=2");
    assert_eq!(r.csv_header(), "unix_time,elapsed,x,y");
}

#[test]
fn sample_get_out_of_range() {
    let mut r = Recorder::new(vec![], 10);
    ingest(&mut r, "1");
    assert_eq!(r.history[0].get(5), None);
}

#[test]
fn toggling_channels() {
    let mut r: Recorder<f64> = Recorder::new(vec!["a".into(), "b".into(), "c".into()], 10);
    assert!(r.toggle(1));
    assert!(!r.toggle(3));
    assert_eq!(r.visible(), vec![0, 2]);
    assert!(r.toggle(1));
    assert_eq!(r.visible(), vec![0, 1, 2]);
}

#[test]
fn last_reading_per_channel() {
    let mut r = Recorder::new(vec![], 10);
    ingest(&mut r, "1 2");
    ingest(&mut r, "b=3");
    assert_eq!(r.channels[0].last, Some(1.0));
    assert_eq!(r.channels[1].last, Some(2.0));
    assert_eq!(r.channels[2].name, "b");
    assert_eq!(r.channels[2].last, Some(3.0));
}

#[test]
fn taking_a_line_then_recording_it() {
    let mut r: Recorder<f64> = Recorder::new(vec![], 10);
    let v = r.take_line(parse_line("1 b=2", &num)).unwrap();
    assert_eq!(v, vec![Some(1.0), Some(2.0)]);
    assert_eq!(r.channels.len(), 2);
    assert!(r.history.is_empty());
    assert_eq!(r.total, 0);
    r.commit(0.5, v);
    assert_eq!(r.history.len(), 1);
    assert_eq!(r.total, 1);
    assert!(r.take_line(parse_line("words only", &num)).is_none());
    assert!(r.take_line(parse_line("   ", &num)).is_none());
}
