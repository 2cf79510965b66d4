use chrono::{Datelike, Local};
use shittd::dates::Date;
use shittd::db::{is_chosen, Db, OldFormat};
use shittd::task::Task;

fn ymd(year: i32, month: u32, day: u32) -> Date {
    Date::new(year, month, day).unwrap()
}

fn today_by_chrono() -> Date {
    let now = Local::now().date_naive();
    ymd(now.year(), now.month(), now.day())
}

fn item(id: u8, name: &str, date: Date, complete: bool) -> Task {
    Task { id, name: name.to_string(), date, complete }
}

fn store(tasks: Vec<Task>) -> Db {
    Db { db_path: "list.json".to_string(), tasks }
}

fn listing(db: &Db) -> Vec<(u8, String, Date, bool)> {
    db.tasks.iter().map(|t| (t.id, t.name.clone(), t.date, t.complete)).collect()
}

#[test]
fn new_store_is_empty() {
    let db = Db::new("somewhere/list.json".to_string());
    assert_eq!(db.db_path, "somewhere/list.json");
    assert!(db.tasks.is_empty());
    assert_eq!(db.get_next_id(), None);
}

#[test]
fn default_task_is_blank_and_due_today() {
    let task = Task::default();
    assert_eq!(task.id, 0);
    assert_eq!(task.name, "Some Task");
    assert!(!task.complete);
    let today = today_by_chrono();
    assert!(task.date == today || task.date.tomorrow() == today);
    let blank = Task::blank(ymd(2024, 3, 15));
    assert_eq!((blank.id, blank.name.as_str(), blank.date, blank.complete), (
        0,
        "Some Task",
        ymd(2024, 3, 15),
        false
    ));
}

#[test]
fn first_task_gets_id_one() {
    let mut db = Db::new("list.json".to_string());
    db.insert_task("first".to_string(), ymd(2024, 3, 15));
    assert_eq!(listing(&db), vec![(1, "first".to_string(), ymd(2024, 3, 15), false)]);
    assert_eq!(db.get_next_id(), Some(2));
}

#[test]
fn next_id_is_one_above_the_highest() {
    let mut db = store(vec![
        item(3, "a", ymd(2024, 1, 1), false),
        item(17, "b", ymd(2024, 1, 2), false),
        item(5, "c", ymd(2024, 1, 3), true),
    ]);
    assert_eq!(db.get_next_id(), Some(18));
    db.insert_task("d".to_string(), ymd(2023, 6, 1));
    assert_eq!(listing(&db), vec![
        (18, "d".to_string(), ymd(2023, 6, 1), false),
        (3, "a".to_string(), ymd(2024, 1, 1), false),
        (17, "b".to_string(), ymd(2024, 1, 2), false),
        (5, "c".to_string(), ymd(2024, 1, 3), true),
    ]);
    assert_eq!(db.get_next_id(), Some(19));
}

#[test]
fn next_id_fills_the_place_of_a_removed_highest() {
    let mut db = Db::new("list.json".to_string());
    db.insert_task("a".to_string(), ymd(2024, 1, 1));
    db.insert_task("b".to_string(), ymd(2024, 1, 2));
    db.insert_task("c".to_string(), ymd(2024, 1, 3));
    db.finish_tasks(vec![3]);
    db.remove_finished_tasks();
    db.insert_task("d".to_string(), ymd(2024, 1, 4));
    let ids: Vec<u8> = db.tasks.iter().map(|t| t.id).collect();
    assert_eq!(ids, vec![1, 2, 3]);
    assert_eq!(db.tasks[2].name, "d");
}

#[test]
fn highest_id_can_be_reached() {
    let mut db = store(vec![item(254, "almost", ymd(2024, 1, 1), false)]);
    assert_eq!(db.get_next_id(), Some(255));
    db.insert_task("last".to_string(), ymd(2024, 1, 2));
    assert_eq!(db.tasks[1].id, 255);
}

#[test]
fn insert_tasks_gives_ids_that_follow() {
    let mut db = store(vec![item(4, "old", ymd(2024, 5, 5), true)]);
    db.insert_tasks(vec!["x".to_string(), "y".to_string(), "z".to_string()], ymd(2024, 3, 15));
    assert_eq!(listing(&db), vec![
        (5, "x".to_string(), ymd(2024, 3, 15), false),
        (6, "y".to_string(), ymd(2024, 3, 15), false),
        (7, "z".to_string(), ymd(2024, 3, 15), false),
        (4, "old".to_string(), ymd(2024, 5, 5), true),
    ]);
    let mut unordered = store(vec![
        item(2, "done", ymd(2024, 1, 1), true),
        item(1, "open", ymd(2024, 1, 1), false),
    ]);
    unordered.insert_tasks(Vec::new(), ymd(2024, 3, 15));
    assert_eq!(unordered.tasks[0].id, 2);
    assert_eq!(unordered.tasks.len(), 2);
}

#[test]
fn add_tasks_reads_the_date_first() {
    let mut db = store(vec![item(1, "old", ymd(2024, 5, 5), false)]);
    let names = vec!["x".to_string(), "y".to_string()];
    assert!(db.add_tasks(names.clone(), Some("2024-05-04".to_string())).is_ok());
    assert_eq!(listing(&db), vec![
        (2, "x".to_string(), ymd(2024, 5, 4), false),
        (3, "y".to_string(), ymd(2024, 5, 4), false),
        (1, "old".to_string(), ymd(2024, 5, 5), false),
    ]);
    let error = db.add_tasks(names.clone(), Some("someday".to_string())).unwrap_err();
    assert_eq!(error.text, "someday");
    assert_eq!(db.tasks.len(), 3);
    let before = today_by_chrono();
    assert!(db.add_tasks(names, None).is_ok());
    let after = today_by_chrono();
    let added: Vec<&Task> = db.tasks.iter().filter(|t| t.id > 3).collect();
    assert_eq!(added.len(), 2);
    assert_eq!((added[0].id, added[0].name.as_str()), (4, "x"));
    assert_eq!((added[1].id, added[1].name.as_str()), (5, "y"));
    assert!(added.iter().all(|t| t.date == before || t.date == after));
}

#[test]
fn highest_id_is_zero_without_tasks() {
    assert_eq!(Db::new("list.json".to_string()).highest_id(), 0);
    let db = store(vec![
        item(3, "a", ymd(2024, 1, 1), false),
        item(200, "b", ymd(2024, 1, 2), false),
        item(5, "c", ymd(2024, 1, 3), true),
    ]);
    assert_eq!(db.highest_id(), 200);
    assert_eq!(store(vec![item(0, "zero", ymd(2024, 1, 1), false)]).highest_id(), 0);
    assert_eq!(store(vec![item(0, "zero", ymd(2024, 1, 1), false)]).get_next_id(), Some(1));
}

#[test]
fn is_chosen_finds_what_is_there() {
    assert!(is_chosen(&vec![3, 1, 2], 1));
    assert!(is_chosen(&vec![3, 1, 2], 3));
    assert!(is_chosen(&vec![7, 7], 7));
    assert!(!is_chosen(&vec![3, 1, 2], 4));
    assert!(!is_chosen(&Vec::new(), 0));
}

#[test]
fn finish_marks_the_chosen_and_orders() {
    let mut db = store(vec![
        item(1, "a", ymd(2024, 1, 1), false),
        item(2, "b", ymd(2024, 1, 2), false),
        item(3, "c", ymd(2024, 1, 3), false),
    ]);
    db.finish_tasks(vec![1, 9]);
    assert_eq!(listing(&db), vec![
        (2, "b".to_string(), ymd(2024, 1, 2), false),
        (3, "c".to_string(), ymd(2024, 1, 3), false),
        (1, "a".to_string(), ymd(2024, 1, 1), true),
    ]);
}

#[test]
fn finish_twice_is_finish_once() {
    let start = vec![
        item(1, "a", ymd(2024, 1, 3), false),
        item(2, "b", ymd(2024, 1, 2), true),
        item(3, "c", ymd(2024, 1, 1), false),
        item(4, "d", ymd(2024, 1, 1), false),
    ];
    let mut once = store(start.clone());
    once.finish_tasks(vec![4, 1]);
    let mut twice = store(start);
    twice.finish_tasks(vec![4, 1]);
    twice.finish_tasks(vec![4, 1]);
    assert_eq!(listing(&twice), listing(&once));
    assert_eq!(listing(&once), vec![
        (3, "c".to_string(), ymd(2024, 1, 1), false),
        (4, "d".to_string(), ymd(2024, 1, 1), true),
        (2, "b".to_string(), ymd(2024, 1, 2), true),
        (1, "a".to_string(), ymd(2024, 1, 3), true),
    ]);
}

#[test]
fn finish_of_unknown_ids_only_orders() {
    let mut db = store(vec![
        item(2, "later", ymd(2024, 6, 1), false),
        item(1, "sooner", ymd(2024, 5, 1), false),
    ]);
    db.finish_tasks(vec![7, 8]);
    assert_eq!(listing(&db), vec![
        (1, "sooner".to_string(), ymd(2024, 5, 1), false),
        (2, "later".to_string(), ymd(2024, 6, 1), false),
    ]);
}

#[test]
fn task_finish_and_push() {
    let mut task = item(1, "a", ymd(2020, 2, 2), false);
    task.finish();
    assert!(task.complete);
    task.finish();
    assert!(task.complete);
    task.push_from(ymd(2024, 2, 28));
    assert_eq!(task.date, ymd(2024, 2, 29));
    assert_eq!((task.id, task.name.as_str(), task.complete), (1, "a", true));
    let today = today_by_chrono();
    task.push();
    assert!(task.date == today.tomorrow() || task.date == today.tomorrow().tomorrow());
}

#[test]
fn push_without_date_sets_tomorrow() {
    let mut db = store(vec![
        item(1, "long ago", ymd(1999, 1, 1), false),
        item(2, "far ahead", ymd(2999, 1, 1), false),
        item(3, "stays", ymd(2000, 6, 6), false),
    ]);
    let before = today_by_chrono();
    assert!(db.push_tasks(vec![1, 2], None).is_ok());
    let after = today_by_chrono();
    let one = db.tasks.iter().find(|t| t.id == 1).unwrap().date;
    let two = db.tasks.iter().find(|t| t.id == 2).unwrap().date;
    assert_eq!(one, two);
    assert!(one == before.tomorrow() || one == after.tomorrow());
    assert_eq!(db.tasks.iter().find(|t| t.id == 3).unwrap().date, ymd(2000, 6, 6));
    assert_eq!(db.tasks[0].id, 3);
}

#[test]
fn push_to_sets_the_date_and_orders() {
    let mut db = store(vec![
        item(1, "a", ymd(2024, 1, 1), false),
        item(2, "b", ymd(2024, 1, 2), false),
        item(3, "c", ymd(2024, 1, 3), true),
    ]);
    db.push_tasks_to(vec![1], ymd(2024, 2, 28).tomorrow());
    assert_eq!(listing(&db), vec![
        (2, "b".to_string(), ymd(2024, 1, 2), false),
        (1, "a".to_string(), ymd(2024, 2, 29), false),
        (3, "c".to_string(), ymd(2024, 1, 3), true),
    ]);
}

#[test]
fn push_with_date_sets_that_date() {
    let mut db = store(vec![
        item(1, "a", ymd(2024, 1, 1), false),
        item(2, "b", ymd(2024, 1, 2), false),
    ]);
    assert!(db.push_tasks(vec![1], Some("2024-03-15".to_string())).is_ok());
    assert_eq!(listing(&db), vec![
        (2, "b".to_string(), ymd(2024, 1, 2), false),
        (1, "a".to_string(), ymd(2024, 3, 15), false),
    ]);
}

#[test]
fn push_with_a_bad_date_changes_nothing() {
    let start = vec![
        item(2, "later", ymd(2024, 6, 1), false),
        item(1, "sooner", ymd(2024, 5, 1), false),
    ];
    let mut db = store(start.clone());
    let error = db.push_tasks(vec![1, 2], Some("next week".to_string())).unwrap_err();
    assert_eq!(error.text, "next week");
    assert_eq!(error.fault, shittd::task::DateFault::NotADate);
    assert!(error.message.starts_with("Need a valid RFC3339-formatted date or datetime: "));
    assert_eq!(listing(&db), listing(&store(start)));
    assert_eq!(db.db_path, "list.json");
}

#[test]
fn push_with_a_date_and_time_succeeds() {
    let mut db = store(vec![item(1, "a", ymd(2024, 1, 1), false)]);
    let text = "2024-03-15T12:00:00+00:00";
    let expected = text.parse::<chrono::DateTime<Local>>().unwrap().date_naive();
    assert!(db.push_tasks(vec![1], Some(text.to_string())).is_ok());
    assert_eq!(db.tasks[0].date, ymd(expected.year(), expected.month(), expected.day()));
    assert!(db.push_tasks(Vec::new(), Some("2024-03-15 08:00:00Z".to_string())).is_ok());
    assert!(db.push_tasks(vec![9], Some("nope".to_string())).is_err());
    assert!(db.push_tasks(Vec::new(), Some("nope".to_string())).is_err());
    assert!(db.push_tasks(Vec::new(), None).is_ok());
}

#[test]
fn dates_in_the_store_stay_days_of_the_calendar() {
    let mut db = Db::new("list.json".to_string());
    db.insert_task("a".to_string(), ymd(2024, 2, 29));
    db.insert_tasks(vec!["b".to_string(), "c".to_string()], ymd(2023, 12, 31));
    assert!(db.add_tasks(vec!["d".to_string()], None).is_ok());
    assert!(db.push_tasks(vec![1], None).is_ok());
    assert!(db.push_tasks(vec![2], Some("2024-04-30".to_string())).is_ok());
    db.push_tasks_to(vec![3], ymd(2024, 12, 31).tomorrow());
    db.finish_tasks(vec![4]);
    db.remove_finished_tasks();
    db.order_tasks();
    assert_eq!(db.tasks.len(), 3);
    for task in db.tasks.iter() {
        assert_eq!(Date::new(task.date.year, task.date.month, task.date.day), Some(task.date));
    }
}

#[test]
fn clean_removes_what_is_done() {
    let mut db = store(vec![
        item(1, "done", ymd(2024, 1, 1), true),
        item(2, "open", ymd(2024, 1, 2), false),
        item(3, "done too", ymd(2024, 1, 3), true),
    ]);
    db.remove_finished_tasks();
    assert_eq!(listing(&db), vec![(2, "open".to_string(), ymd(2024, 1, 2), false)]);
}

#[test]
fn clean_shortens_by_the_number_of_done_tasks() {
    let mut db = store(vec![
        item(1, "a", ymd(2024, 1, 1), false),
        item(2, "b", ymd(2024, 1, 2), false),
        item(3, "c", ymd(2024, 1, 3), false),
        item(4, "d", ymd(2024, 1, 1), true),
        item(5, "e", ymd(2024, 1, 2), true),
    ]);
    let done = db.tasks.iter().filter(|t| t.complete).count();
    let before = db.tasks.len();
    db.remove_finished_tasks();
    assert_eq!(db.tasks.len(), before - done);
    assert_eq!(listing(&db), vec![
        (1, "a".to_string(), ymd(2024, 1, 1), false),
        (2, "b".to_string(), ymd(2024, 1, 2), false),
        (3, "c".to_string(), ymd(2024, 1, 3), false),
    ]);
    db.remove_finished_tasks();
    assert_eq!(db.tasks.len(), 3);
    let mut all_done = store(vec![item(1, "a", ymd(2024, 1, 1), true)]);
    all_done.remove_finished_tasks();
    assert!(all_done.tasks.is_empty());
}

#[test]
fn migration_dates_every_task_today() {
    let text = r#"[{"id":1,"name":"X","complete":false}]"#;
    let document: serde_json::Value = serde_json::from_str(text).unwrap();
    let prior: Vec<OldFormat> = document
        .as_array()
        .unwrap()
        .iter()
        .map(|entry| OldFormat {
            id: entry.get("id").unwrap().as_u64().unwrap() as u8,
            name: entry.get("name").unwrap().as_str().unwrap().to_string(),
            complete: entry.get("complete").unwrap().as_bool().unwrap(),
        })
        .collect();
    let mut db = Db::new("list.json".to_string());
    let before = today_by_chrono();
    db.update(prior);
    let after = today_by_chrono();
    assert_eq!(db.tasks.len(), 1);
    assert_eq!(db.tasks[0].id, 1);
    assert_eq!(db.tasks[0].name, "X");
    assert!(!db.tasks[0].complete);
    assert!(db.tasks[0].date == before || db.tasks[0].date == after);
}

#[test]
fn migration_keeps_the_order_of_the_list() {
    let prior = vec![
        OldFormat { id: 2, name: "done".to_string(), complete: true },
        OldFormat { id: 1, name: "open".to_string(), complete: false },
    ];
    let mut db = store(vec![item(9, "gone", ymd(2020, 1, 1), false)]);
    db.update_on(prior, ymd(2024, 3, 15));
    assert_eq!(listing(&db), vec![
        (2, "done".to_string(), ymd(2024, 3, 15), true),
        (1, "open".to_string(), ymd(2024, 3, 15), false),
    ]);
    let upgraded = OldFormat { id: 7, name: "n".to_string(), complete: true }.upgrade(ymd(2024, 1, 1));
    assert_eq!((upgraded.id, upgraded.name.as_str(), upgraded.date, upgraded.complete), (
        7,
        "n",
        ymd(2024, 1, 1),
        true
    ));
}

#[test]
fn init_opens_what_is_stored_or_asks_for_the_file() {
    let mut db = Db::new("list.json".to_string());
    assert_eq!(db.init(None), Some("{}".to_string()));
    assert!(db.tasks.is_empty());
    let stored = vec![
        item(2, "done", ymd(2024, 1, 1), true),
        item(1, "open", ymd(2024, 1, 1), false),
    ];
    assert_eq!(db.init(Some(stored)), None);
    assert_eq!(listing(&db), vec![
        (2, "done".to_string(), ymd(2024, 1, 1), true),
        (1, "open".to_string(), ymd(2024, 1, 1), false),
    ]);
    assert_eq!(db.db_path, "list.json");
}

#[test]
fn saved_tasks_open_as_they_were() {
    let mut db = Db::new("list.json".to_string());
    db.insert_task("a".to_string(), ymd(2024, 3, 15));
    db.insert_task("b \"quoted\" \u{e9}".to_string(), ymd(2023, 1, 1));
    db.insert_task("".to_string(), ymd(2025, 12, 31));
    db.finish_tasks(vec![2]);
    let expected = listing(&db);
    let saved = db.save();
    assert_eq!(saved.len(), 3);
    let mut again = Db::new("list.json".to_string());
    again.open(saved);
    assert_eq!(listing(&again), expected);
    again.order_tasks();
    assert_eq!(listing(&again), expected);
}

#[test]
fn store_in_home_has_the_name_of_the_list() {
    assert!(Db::in_home(None).is_none());
    assert!(Db::in_home(Some(String::new())).is_none());
    let db = Db::in_home(Some("base".to_string())).unwrap();
    assert!(db.tasks.is_empty());
    let expected = std::path::Path::new("base").join(".shittd.json");
    assert_eq!(std::path::Path::new(&db.db_path), expected.as_path());
    assert_ne!(db.db_path, "base");
    assert!(db.db_path.starts_with("base"));
    assert!(db.db_path.ends_with(".shittd.json"));
    assert_eq!(db.db_path.chars().count(), "base".len() + 1 + ".shittd.json".len());
    for home in ["/home/user", "/home/user/", "relative/dir", "/", "C:\\Users\\u", "h\u{e9}"] {
        let db = Db::in_home(Some(home.to_string())).unwrap();
        assert!(db.db_path.starts_with(home));
        assert!(db.db_path.ends_with(".shittd.json"));
        let longest = home.chars().count() + 1 + ".shittd.json".len();
        assert!(db.db_path.chars().count() <= longest);
        assert!(db.db_path.chars().count() >= longest - 1);
        assert!(db.tasks.is_empty());
    }
}

#[test]
fn store_at_home_is_in_the_home_directory() {
    let found = Db::at_home();
    match home::home_dir() {
        Some(home) if !home.as_os_str().is_empty() && home.to_str().is_some() => {
            let db = found.unwrap();
            assert_eq!(std::path::Path::new(&db.db_path), home.join(".shittd.json").as_path());
            assert!(db.db_path.ends_with(".shittd.json"));
            assert!(db.db_path.starts_with(home.to_str().unwrap()));
            assert!(db.tasks.is_empty());
        },
        _ => assert!(found.is_none()),
    }
}
