use gokugains::input::parse_index;
use gokugains::input::parse_positive;
use gokugains::input::parse_u32;
use gokugains::store::decode;
use gokugains::store::load;
use gokugains::store::save;
use gokugains::summary::Summary;
use gokugains::workflow::add_exercise_today;
use gokugains::workflow::edit_exercise;
use gokugains::Collection;
use gokugains::Exercise;

fn ex(label: &str, sets: u32, reps: u32) -> Exercise {
    Exercise { label: label.as_bytes().to_vec(), sets, reps }
}

fn sample() -> Collection {
    let mut c = Collection::new();
    c.add_exercise(b"2024-01-01".to_vec(), ex("pushups", 3, 10));
    c.add_exercise(b"2024-01-01".to_vec(), ex("squat", 2, 8));
    c.add_exercise(b"2024-01-02".to_vec(), ex("plank", 1, 60));
    c
}

fn assert_same(a: &Collection, b: &Collection) {
    assert_eq!(a.entries.len(), b.entries.len());
    for i in 0..a.entries.len() {
        assert_eq!(a.entries[i].date, b.entries[i].date);
        assert_eq!(a.entries[i].exercises.len(), b.entries[i].exercises.len());
        for j in 0..a.entries[i].exercises.len() {
            assert_eq!(a.entries[i].exercises[j].label, b.entries[i].exercises[j].label);
            assert_eq!(a.entries[i].exercises[j].sets, b.entries[i].exercises[j].sets);
            assert_eq!(a.entries[i].exercises[j].reps, b.entries[i].exercises[j].reps);
        }
    }
}

#[test]
fn round_trip_sample() {
    let c = sample();
    let doc = save(&c);
    let c2 = load(Some(&doc)).expect("saved document must load");
    assert_same(&c, &c2);
}

#[test]
fn round_trip_escapes() {
    let mut c = Collection::new();
    c.add_exercise(b"2024-02-29".to_vec(), ex("odd \"label\" with \\ backslash", 1, 1));
    let doc = save(&c);
    let c2 = load(Some(&doc)).expect("escaped labels must round trip");
    assert_same(&c, &c2);
}

#[test]
fn round_trip_empty() {
    let c = Collection::new();
    let doc = save(&c);
    assert_eq!(doc, b"[]".to_vec());
    let c2 = load(Some(&doc)).expect("empty document must load");
    assert_eq!(c2.entries.len(), 0);
}

#[test]
fn save_exact_document() {
    let mut c = Collection::new();
    c.add_exercise(b"2024-01-02".to_vec(), ex("pushups", 3, 10));
    let doc = save(&c);
    let expected = r#"[{"date":"2024-01-02","exercises":[{"type":"pushups","sets":3,"reps":10}]}]"#;
    assert_eq!(doc, expected.as_bytes().to_vec());
}

#[test]
fn add_merges_same_date() {
    let mut c = Collection::new();
    c.add_exercise(b"2024-03-01".to_vec(), ex("pushups", 3, 10));
    c.add_exercise(b"2024-03-01".to_vec(), ex("squat", 2, 8));
    assert_eq!(c.entries.len(), 1);
    assert_eq!(c.entries[0].date, b"2024-03-01".to_vec());
    assert_eq!(c.entries[0].exercises.len(), 2);
    assert_eq!(c.entries[0].exercises[0].label, b"pushups".to_vec());
    assert_eq!(c.entries[0].exercises[1].label, b"squat".to_vec());
}

#[test]
fn add_two_dates_two_entries() {
    let mut c = Collection::new();
    c.add_exercise(b"2024-03-01".to_vec(), ex("pushups", 3, 10));
    c.add_exercise(b"2024-03-02".to_vec(), ex("squat", 2, 8));
    assert_eq!(c.entries.len(), 2);
    assert_eq!(c.entries[0].date, b"2024-03-01".to_vec());
    assert_eq!(c.entries[1].date, b"2024-03-02".to_vec());
    assert_eq!(c.entries[0].exercises.len(), 1);
    assert_eq!(c.entries[1].exercises.len(), 1);
}

#[test]
fn delete_sole_exercise_removes_day() {
    let mut c = sample();
    assert_eq!(c.entries.len(), 2);
    c.delete_exercise(1, 0);
    assert_eq!(c.entries.len(), 1);
    assert_eq!(c.entries[0].date, b"2024-01-01".to_vec());
}

#[test]
fn delete_one_of_several_keeps_order() {
    let mut c = sample();
    c.add_exercise(b"2024-01-01".to_vec(), ex("rows", 4, 6));
    c.delete_exercise(0, 1);
    assert_eq!(c.entries.len(), 2);
    assert_eq!(c.entries[0].exercises.len(), 2);
    assert_eq!(c.entries[0].exercises[0].label, b"pushups".to_vec());
    assert_eq!(c.entries[0].exercises[1].label, b"rows".to_vec());
}

#[test]
fn summary_totals_squat() {
    let mut c = Collection::new();
    c.add_exercise(b"2024-04-01".to_vec(), ex("squat", 3, 10));
    c.add_exercise(b"2024-04-01".to_vec(), ex("squat", 2, 8));
    let s = Summary::compute(&c).expect("small totals fit");
    assert_eq!(s.count, 2);
    assert_eq!(s.total_sets, 5);
    assert_eq!(s.total_reps, 46);
    assert_eq!(s.by_label.len(), 1);
    assert_eq!(s.by_label[0].label, b"squat".to_vec());
    assert_eq!(s.by_label[0].sets, 5);
    assert_eq!(s.by_label[0].reps, 46);
}

#[test]
fn summary_labels_exact_match() {
    let mut c = Collection::new();
    c.add_exercise(b"2024-04-01".to_vec(), ex("Pushups", 1, 5));
    c.add_exercise(b"2024-04-01".to_vec(), ex("pushups", 2, 5));
    let s = Summary::compute(&c).expect("small totals fit");
    assert_eq!(s.count, 2);
    assert_eq!(s.by_label.len(), 2);
}

#[test]
fn summary_empty() {
    let c = Collection::new();
    let s = Summary::compute(&c).expect("empty totals fit");
    assert_eq!(s.count, 0);
    assert_eq!(s.total_sets, 0);
    assert_eq!(s.total_reps, 0);
    assert_eq!(s.by_label.len(), 0);
}

#[test]
fn edit_partial_update_sets_only() {
    let mut c = sample();
    let r = edit_exercise(&mut c, 0, 0, &Vec::new(), &b"7".to_vec(), &Vec::new());
    assert!(r.is_ok());
    assert_eq!(c.entries[0].exercises[0].label, b"pushups".to_vec());
    assert_eq!(c.entries[0].exercises[0].sets, 7);
    assert_eq!(c.entries[0].exercises[0].reps, 10);
}

#[test]
fn edit_all_fields() {
    let mut c = sample();
    let r = edit_exercise(&mut c, 0, 1, &b"lunges".to_vec(), &b"5".to_vec(), &b"12".to_vec());
    assert!(r.is_ok());
    assert_eq!(c.entries[0].exercises[1].label, b"lunges".to_vec());
    assert_eq!(c.entries[0].exercises[1].sets, 5);
    assert_eq!(c.entries[0].exercises[1].reps, 12);
}

#[test]
fn edit_invalid_sets_keeps_label_change() {
    let mut c = sample();
    let r = edit_exercise(&mut c, 0, 0, &b"dips".to_vec(), &b"abc".to_vec(), &b"9".to_vec());
    assert!(r.is_err());
    assert_eq!(c.entries[0].exercises[0].label, b"dips".to_vec());
    assert_eq!(c.entries[0].exercises[0].sets, 3);
    assert_eq!(c.entries[0].exercises[0].reps, 10);
}

#[test]
fn edit_invalid_reps_keeps_earlier_changes() {
    let mut c = sample();
    let r = edit_exercise(&mut c, 0, 0, &Vec::new(), &b"6".to_vec(), &b"x1".to_vec());
    assert!(r.is_err());
    assert_eq!(c.entries[0].exercises[0].sets, 6);
    assert_eq!(c.entries[0].exercises[0].reps, 10);
}

#[test]
fn positive_integer_validation() {
    assert_eq!(parse_positive(&b"abc".to_vec()), None);
    assert_eq!(parse_positive(&b"-1".to_vec()), None);
    assert_eq!(parse_positive(&b"0".to_vec()), None);
    assert_eq!(parse_positive(&b"".to_vec()), None);
    assert_eq!(parse_positive(&b"3".to_vec()), Some(3));
    assert_eq!(parse_positive(&b"4294967295".to_vec()), Some(u32::MAX));
    assert_eq!(parse_positive(&b"4294967296".to_vec()), None);
    assert_eq!(parse_positive(&b"1 2".to_vec()), None);
}

#[test]
fn leading_plus_sign_accepted() {
    assert_eq!(parse_positive(&b"+5".to_vec()), Some(5));
    assert_eq!(parse_u32(&b"+0".to_vec()), Some(0));
    assert_eq!(parse_positive(&b"+".to_vec()), None);
    assert_eq!(parse_positive(&b"++1".to_vec()), None);
    assert_eq!(parse_positive(&b"5+".to_vec()), None);
    assert_eq!(parse_index(&b"+2".to_vec(), 3), Some(2));
}

#[test]
fn u32_parse_allows_zero() {
    assert_eq!(parse_u32(&b"0".to_vec()), Some(0));
    assert_eq!(parse_u32(&b"007".to_vec()), Some(7));
    assert_eq!(parse_u32(&b"9.5".to_vec()), None);
}

#[test]
fn index_selection_bounds() {
    assert_eq!(parse_index(&b"1".to_vec(), 3), Some(1));
    assert_eq!(parse_index(&b"3".to_vec(), 3), Some(3));
    assert_eq!(parse_index(&b"4".to_vec(), 3), None);
    assert_eq!(parse_index(&b"0".to_vec(), 3), None);
    assert_eq!(parse_index(&b"abc".to_vec(), 3), None);
    assert_eq!(parse_index(&b"2".to_vec(), 0), None);
    assert_eq!(parse_index(&b"".to_vec(), 3), None);
}

#[test]
fn load_missing_file_is_empty() {
    let c = load(None).expect("an absent file is an empty collection");
    assert_eq!(c.entries.len(), 0);
}

#[test]
fn load_garbage_is_error() {
    assert!(load(Some(&b"not a document".to_vec())).is_err());
    assert!(load(Some(&b"".to_vec())).is_err());
    assert!(load(Some(&b"[".to_vec())).is_err());
    assert!(load(Some(&b"[]trailing".to_vec())).is_err());
}

#[test]
fn decode_rejects_duplicate_dates() {
    let doc = r#"[{"date":"2024-01-01","exercises":[{"type":"a","sets":1,"reps":1}]},{"date":"2024-01-01","exercises":[{"type":"b","sets":1,"reps":1}]}]"#;
    assert!(decode(&doc.as_bytes().to_vec()).is_err());
}

#[test]
fn decode_rejects_bad_number() {
    let doc = r#"[{"date":"2024-01-01","exercises":[{"type":"a","sets":99999999999,"reps":1}]}]"#;
    assert!(decode(&doc.as_bytes().to_vec()).is_err());
}

#[test]
fn decode_accepts_two_days() {
    let doc = r#"[{"date":"2024-01-01","exercises":[{"type":"a","sets":1,"reps":2},{"type":"b","sets":3,"reps":4}]},{"date":"2024-01-02","exercises":[{"type":"c","sets":5,"reps":6}]}]"#;
    let c = decode(&doc.as_bytes().to_vec()).expect("well-formed document must load");
    assert_eq!(c.entries.len(), 2);
    assert_eq!(c.entries[0].exercises.len(), 2);
    assert_eq!(c.entries[0].exercises[1].sets, 3);
    assert_eq!(c.entries[1].date, b"2024-01-02".to_vec());
    assert_eq!(c.entries[1].exercises[0].reps, 6);
}

#[test]
fn add_today_uses_clock_date() {
    let mut c = Collection::new();
    let date = add_exercise_today(&mut c, ex("pushups", 2, 15));
    assert_eq!(c.entries.len(), 1);
    assert_eq!(c.entries[0].date, date);
    assert_eq!(date.len(), 10);
    assert!(date.iter().all(|b| b.is_ascii_digit() || *b == b'-'));
    assert_eq!(c.entries[0].exercises[0].label, b"pushups".to_vec());
    let date2 = add_exercise_today(&mut c, ex("squat", 1, 5));
    assert_eq!(date, date2);
    assert_eq!(c.entries.len(), 1);
    assert_eq!(c.entries[0].exercises.len(), 2);
}
