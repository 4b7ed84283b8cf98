use savestates::tas::Tas;
use savestates::worlds::{
    delete_check, format_names, get_all_worlds, is_minecraft_save_folder, sort_by_modified_desc,
    DeleteVerdict, FsEntry, WorldCandidate,
};
use savestates::names::{count_fields, count_hyphens, make_restore_name, make_savestate_name};
use savestates::Displayable;

fn strings(items: &[&str]) -> Vec<String> {
    items.iter().map(|s| s.to_string()).collect()
}

#[test]
fn new_tas_starts_empty() {
    let t = Tas::new(
        "Run1".to_string(),
        "/mc/.minecraft".to_string(),
        "/home/u/.savestates/tases/Run1".to_string(),
    );
    assert_eq!(t.name, "Run1");
    assert_eq!(t.num_savestates, 0);
    assert!(t.attempts.is_empty());
}

#[test]
fn create_savestate_names_and_counts() {
    // A project with two snapshots already taken: the next one is number 2.
    let mut t = Tas::new("Run1".to_string(), "/mc".to_string(), "/store/Run1".to_string());
    t.num_savestates = 2;
    let name = t.create_savestate("start");
    assert_eq!(name, "Run1-2-start");
    assert_eq!(t.num_savestates, 3);
    assert!(t.attempts.is_empty());
}

#[test]
fn create_savestate_increments_by_one() {
    let mut t = Tas::new("Run1".to_string(), "/mc".to_string(), "/store/Run1".to_string());
    let first = t.create_savestate("a");
    let second = t.create_savestate("b");
    assert_eq!(first, "Run1-0-a");
    assert_eq!(second, "Run1-1-b");
    assert_eq!(t.num_savestates, 2);
}

#[test]
fn restore_twice_gets_distinct_names() {
    // First restore of a savestate lands at attempt 0, the next at 1.
    let mut t = Tas::new("Run1".to_string(), "/mc".to_string(), "/store/Run1".to_string());
    let savestate = "Run1-0-start".to_string();
    let first = t.load_savestate(&savestate);
    assert_eq!(first, "Run1-0-start-0");
    let second = t.load_savestate(&savestate);
    assert_eq!(second, "Run1-0-start-1");
    assert_ne!(first, second);
    assert_eq!(t.attempts.len(), 1);
    assert_eq!(t.attempts[0], ("Run1-0-start".to_string(), 1));
}

#[test]
fn restore_resumes_from_recorded_attempt() {
    let mut t = Tas::new("Run1".to_string(), "/mc".to_string(), "/store/Run1".to_string());
    t.attempts.push(("Run1-0-start".to_string(), 4));
    let name = t.load_savestate(&"Run1-0-start".to_string());
    assert_eq!(name, "Run1-0-start-5");
    assert_eq!(t.attempts[0].1, 5);
}

#[test]
fn restore_tracks_each_savestate_separately() {
    let mut t = Tas::new("Run1".to_string(), "/mc".to_string(), "/store/Run1".to_string());
    let a = "Run1-0-a".to_string();
    let b = "Run1-1-b".to_string();
    assert_eq!(t.load_savestate(&a), "Run1-0-a-0");
    assert_eq!(t.load_savestate(&b), "Run1-1-b-0");
    assert_eq!(t.load_savestate(&a), "Run1-0-a-1");
    assert_eq!(t.attempts.len(), 2);
}

#[test]
fn save_folder_needs_both_markers() {
    assert!(is_minecraft_save_folder(&strings(&["level.dat", "session.lock"])));
    assert!(is_minecraft_save_folder(&strings(&[
        "advancements", "level.dat", "data", "session.lock", "region"
    ])));
    assert!(!is_minecraft_save_folder(&strings(&[])));
    assert!(!is_minecraft_save_folder(&strings(&["level.dat"])));
    assert!(!is_minecraft_save_folder(&strings(&["session.lock"])));
    assert!(!is_minecraft_save_folder(&strings(&["level.dat.backup", "session.lock.old"])));
}

#[test]
fn delete_gates_refuse_in_order() {
    let save = strings(&["level.dat", "session.lock"]);
    let junk = strings(&["readme.txt"]);
    assert_eq!(delete_check(&junk, 10, "Run1-0-start"), DeleteVerdict::NotASave);
    assert_eq!(delete_check(&save, 5_000_000_001, "Run1-0-start"), DeleteVerdict::TooLarge);
    assert_eq!(delete_check(&save, 10, "Run1-0-start-0"), DeleteVerdict::BadNameFormat);
    assert_eq!(delete_check(&save, 10, "plainworld"), DeleteVerdict::BadNameFormat);
}

#[test]
fn delete_approved_only_when_all_gates_pass() {
    let save = strings(&["level.dat", "session.lock", "region"]);
    assert_eq!(delete_check(&save, 10, "Run1-0-start"), DeleteVerdict::Approved);
    // The size gate is inclusive: exactly the limit still passes.
    assert_eq!(delete_check(&save, 5_000_000_000, "Run1-0-start"), DeleteVerdict::Approved);
}

#[test]
fn field_counting() {
    assert_eq!(count_hyphens("Run1-2-start"), 2);
    assert_eq!(count_hyphens(""), 0);
    assert_eq!(count_fields("Run1-2-start"), 3);
    assert_eq!(count_fields("Run1-2-start-0"), 4);
    assert_eq!(count_fields("plain"), 1);
    assert_eq!(count_fields(""), 1);
    assert_eq!(count_fields("--"), 3);
}

#[test]
fn name_builders() {
    assert_eq!(make_savestate_name("Run1", 0, "go"), "Run1-0-go");
    assert_eq!(make_savestate_name("R", 1234, ""), "R-1234-");
    assert_eq!(make_restore_name("Run1-0-go", 7), "Run1-0-go-7");
}

fn entry(name: &str, modified: u64) -> FsEntry {
    FsEntry { path: format!("/saves/{}", name), name: name.to_string(), modified }
}

#[test]
fn sorting_is_newest_first() {
    let entries = vec![entry("old", 100), entry("new", 900), entry("mid", 500)];
    let sorted = sort_by_modified_desc(entries);
    let names: Vec<&str> = sorted.iter().map(|e| e.name.as_str()).collect();
    assert_eq!(names, vec!["new", "mid", "old"]);
}

#[test]
fn sorting_keeps_duplicates() {
    let entries = vec![entry("a", 5), entry("b", 5), entry("c", 9)];
    let sorted = sort_by_modified_desc(entries);
    assert_eq!(sorted.len(), 3);
    assert_eq!(sorted[0].name, "c");
    let mut rest: Vec<&str> = sorted[1..].iter().map(|e| e.name.as_str()).collect();
    rest.sort();
    assert_eq!(rest, vec!["a", "b"]);
}

#[test]
fn worlds_are_filtered_and_sorted() {
    let candidates = vec![
        WorldCandidate {
            entry: entry("broken", 999),
            file_names: strings(&["icon.png"]),
        },
        WorldCandidate {
            entry: entry("older", 100),
            file_names: strings(&["level.dat", "session.lock"]),
        },
        WorldCandidate {
            entry: entry("newer", 200),
            file_names: strings(&["level.dat", "session.lock", "region"]),
        },
    ];
    let worlds = get_all_worlds(candidates);
    let names: Vec<&str> = worlds.iter().map(|e| e.name.as_str()).collect();
    assert_eq!(names, vec!["newer", "older"]);
}

#[test]
fn display_lines_pad_and_stamp() {
    // The Unix epoch formats as midnight on the first day of 1970; a
    // wrapper that handed back anything else would fail here.
    let listed = vec![entry("w", 0)];
    let lines = format_names(&listed);
    assert_eq!(lines.len(), 1);
    let expected = format!("w{}00:00:00 01/01/1970", " ".repeat(34));
    assert_eq!(lines[0], expected);
}

#[test]
fn display_lines_use_each_timestamp() {
    let listed = vec![entry("alpha", 0), entry("beta", 86_400 + 3_661)];
    let lines = format_names(&listed);
    assert_eq!(lines[1], format!("beta{}01:01:01 02/01/1970", " ".repeat(31)));
    assert_ne!(lines[0], lines[1]);
}

#[test]
fn display_string_of_string_is_itself() {
    let s = "hello".to_string();
    assert_eq!(s.display_string(), "hello");
}
