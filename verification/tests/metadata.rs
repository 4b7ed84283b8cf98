use savestates::codec::{decode_tas, encode_tas, paths_to_append};
use savestates::digits::{parse_usize, usize_to_string};
use savestates::tas::Tas;
use savestates::text::{join_lines, split_lines};

fn strings(items: &[&str]) -> Vec<String> {
    items.iter().map(|s| s.to_string()).collect()
}

#[test]
fn counters_render_in_decimal() {
    assert_eq!(usize_to_string(0), "0");
    assert_eq!(usize_to_string(7), "7");
    assert_eq!(usize_to_string(42), "42");
    assert_eq!(usize_to_string(1_000_000), "1000000");
}

#[test]
fn counters_parse_back() {
    assert_eq!(parse_usize("0"), Some(0));
    assert_eq!(parse_usize("42"), Some(42));
    assert_eq!(parse_usize("1000000"), Some(1_000_000));
}

#[test]
fn malformed_counters_are_rejected() {
    assert_eq!(parse_usize(""), None);
    assert_eq!(parse_usize("007"), None);
    assert_eq!(parse_usize("4x2"), None);
    assert_eq!(parse_usize("-3"), None);
    assert_eq!(parse_usize("99999999999999999999999"), None);
}

#[test]
fn lines_survive_join_and_split() {
    let lines = strings(&["alpha", "", "beta/gamma", "d-e-f"]);
    let text = join_lines(&lines);
    assert_eq!(text, "alpha\n\nbeta/gamma\nd-e-f\n");
    assert_eq!(split_lines(&text), lines);
}

#[test]
fn splitting_edge_cases() {
    assert_eq!(split_lines(""), Vec::<String>::new());
    assert_eq!(split_lines("a"), strings(&["a"]));
    assert_eq!(split_lines("a\n"), strings(&["a"]));
    assert_eq!(split_lines("\n\n"), strings(&["", ""]));
}

#[test]
fn tas_round_trips_with_attempts() {
    let mut t = Tas::new(
        "Run1".to_string(),
        "/home/u/.minecraft".to_string(),
        "/home/u/.savestates/tases/Run1".to_string(),
    );
    t.num_savestates = 3;
    t.attempts.push(("Run1-0-start".to_string(), 2));
    t.attempts.push(("Run1-2-mid".to_string(), 0));
    let text = encode_tas(&t);
    let back = decode_tas(&text).expect("a freshly written record must read back");
    assert_eq!(back.name, t.name);
    assert_eq!(back.minecraft_folder, t.minecraft_folder);
    assert_eq!(back.path, t.path);
    assert_eq!(back.num_savestates, t.num_savestates);
    assert_eq!(back.attempts, t.attempts);
}

#[test]
fn tas_round_trips_with_empty_attempts() {
    let t = Tas::new("R".to_string(), "/mc".to_string(), "/store/R".to_string());
    let back = decode_tas(&encode_tas(&t)).expect("record with no attempts must read back");
    assert_eq!(back.name, "R");
    assert_eq!(back.num_savestates, 0);
    assert!(back.attempts.is_empty());
}

#[test]
fn persisted_record_is_line_oriented() {
    let mut t = Tas::new("Run1".to_string(), "/mc".to_string(), "/store/Run1".to_string());
    t.num_savestates = 2;
    t.attempts.push(("Run1-1-go".to_string(), 1));
    assert_eq!(encode_tas(&t), "Run1\n/mc\n/store/Run1\n2\n1\nRun1-1-go\n1\n");
}

#[test]
fn malformed_records_are_rejected() {
    // Too few lines.
    assert!(decode_tas("Run1\n/mc\n/store\n0\n").is_none());
    // A counter that is not a canonical number.
    assert!(decode_tas("Run1\n/mc\n/store\nxyz\n0\n").is_none());
    assert!(decode_tas("Run1\n/mc\n/store\n02\n0\n").is_none());
    // The declared table size does not match the lines that follow.
    assert!(decode_tas("Run1\n/mc\n/store\n1\n1\nRun1-0-a\n").is_none());
    assert!(decode_tas("Run1\n/mc\n/store\n1\n0\nRun1-0-a\n0\n").is_none());
    // The same savestate tracked twice.
    assert!(decode_tas("Run1\n/mc\n/store\n1\n2\na\n0\na\n1\n").is_none());
    // An attempt value that is not a canonical number.
    assert!(decode_tas("Run1\n/mc\n/store\n1\n1\na\nten\n").is_none());
}

#[test]
fn decoding_accepts_distinct_keys() {
    let text = "Run1\n/mc\n/store\n1\n2\na\n0\nb\n1\n";
    let t = decode_tas(text).expect("distinct keys are fine");
    assert_eq!(t.attempts, vec![("a".to_string(), 0), ("b".to_string(), 1)]);
}

#[test]
fn new_source_roots_are_deduplicated() {
    let existing = strings(&["/a/.minecraft", "/b/.minecraft"]);
    let additions = strings(&["/b/.minecraft", "/c/.minecraft", "/c/.minecraft", "/a/.minecraft", "/d/.minecraft"]);
    let appended = paths_to_append(&existing, &additions);
    assert_eq!(appended, strings(&["/c/.minecraft", "/d/.minecraft"]));
}

#[test]
fn no_new_source_roots_means_nothing_to_append() {
    let existing = strings(&["/a"]);
    assert_eq!(paths_to_append(&existing, &strings(&["/a", "/a"])), Vec::<String>::new());
    assert_eq!(paths_to_append(&existing, &strings(&[])), Vec::<String>::new());
}
