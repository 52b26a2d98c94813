use task_tracker_lib::codec::{decode, encode};
use task_tracker_lib::{Date, DateTime, Task, TaskStatus, Time};

fn dt(year: u16, month: u8, day: u8, hour: u8, minute: u8, second: u8) -> DateTime {
    DateTime::new(Date::new(year, month, day), Time::new(hour, minute, second))
}

fn task(description: &str, status: TaskStatus, created: DateTime, updated: DateTime) -> Task {
    Task::load(description, &status, &created, &updated)
}

#[test]
fn empty_store_encodes_as_empty_array() {
    assert_eq!(encode(&Vec::new()), "[\n]");
}

#[test]
fn one_record_encodes_in_fixed_field_order() {
    let t = task("buy milk", TaskStatus::InProgress, dt(2024, 1, 2, 3, 4, 5), dt(2024, 1, 2, 3, 4, 6));
    let text = encode(&vec![(7, t)]);
    let expected = "[\n    {\n        \"id\": \"7\",\n        \"description\": \"buy milk\",\n        \"status\": \"in-progress\",\n        \"createdAt\": \"2024/01/02 03:04:05\",\n        \"updatedAt\": \"2024/01/02 03:04:06\"\n    }\n]";
    assert_eq!(text, expected);
}

#[test]
fn records_are_separated_by_commas() {
    let a = task("a", TaskStatus::ToDo, dt(2024, 1, 1, 0, 0, 0), dt(2024, 1, 1, 0, 0, 0));
    let b = task("b", TaskStatus::Done, dt(2024, 1, 1, 0, 0, 0), dt(2024, 1, 1, 0, 0, 0));
    let text = encode(&vec![(0, a), (1, b)]);
    assert!(text.contains("    },\n    {\n"));
    assert!(text.ends_with("    }\n]"));
}

#[test]
fn encode_then_decode_gives_the_records_back() {
    let now = dt(2030, 1, 1, 0, 0, 0);
    let tasks = vec![
        (3, task("first: with colon", TaskStatus::ToDo, dt(2024, 1, 2, 3, 4, 5), dt(2024, 1, 2, 3, 4, 5))),
        (0, task("  spaced  ", TaskStatus::InProgress, dt(1999, 12, 31, 23, 59, 59), dt(2000, 1, 1, 0, 0, 0))),
        (42, task("", TaskStatus::Done, dt(2024, 2, 29, 12, 0, 0), dt(2024, 3, 1, 12, 0, 0))),
    ];
    let back = decode(&encode(&tasks), now);
    assert_eq!(back.len(), tasks.len());
    for (i, (id, t)) in tasks.iter().enumerate() {
        assert_eq!(back[i].0, *id);
        assert_eq!(back[i].1.description(), t.description());
        assert_eq!(back[i].1.status(), t.status());
        assert_eq!(back[i].1.created_at(), t.created_at());
        assert_eq!(back[i].1.updated_at(), t.updated_at());
    }
}

#[test]
fn empty_text_decodes_to_no_records() {
    assert_eq!(decode("", dt(2030, 1, 1, 0, 0, 0)).len(), 0);
    assert_eq!(decode("[\n]", dt(2030, 1, 1, 0, 0, 0)).len(), 0);
}

#[test]
fn missing_fields_take_defaults() {
    let now = dt(2030, 1, 1, 0, 0, 0);
    let back = decode("[\n{\n\"description\": \"x\",\n\"status\": \"DONE\",\n\"colour\": \"red\",\n}\n]", now);
    assert_eq!(back.len(), 1);
    assert_eq!(back[0].0, 0);
    assert_eq!(back[0].1.description(), "x");
    assert_eq!(*back[0].1.status(), TaskStatus::Done);
    assert_eq!(*back[0].1.created_at(), now);
    assert_eq!(*back[0].1.updated_at(), now);
}

#[test]
fn later_object_with_same_id_replaces_earlier() {
    let now = dt(2030, 1, 1, 0, 0, 0);
    let text = "[\n{\n\"id\": \"4\",\n\"description\": \"old\",\n},\n{\n\"id\": \"4\",\n\"description\": \"new\",\n}\n]";
    let back = decode(text, now);
    assert_eq!(back.len(), 1);
    assert_eq!(back[0].1.description(), "new");
}

#[test]
fn fields_reset_between_objects() {
    let now = dt(2030, 1, 1, 0, 0, 0);
    let text = "[\n{\n\"id\": \"1\",\n\"description\": \"one\",\n\"status\": \"done\",\n},\n{\n\"id\": \"2\",\n}\n]";
    let back = decode(text, now);
    assert_eq!(back.len(), 2);
    assert_eq!(back[1].0, 2);
    assert_eq!(back[1].1.description(), "");
    assert_eq!(*back[1].1.status(), TaskStatus::ToDo);
}

#[test]
fn unquoted_or_bad_id_reads_as_zero() {
    let now = dt(2030, 1, 1, 0, 0, 0);
    let back = decode("{\n\"id\": 5,\n}\n{\n\"id\": \"x9\",\n\"description\": \"b\",\n}", now);
    assert_eq!(back.len(), 1);
    assert_eq!(back[0].0, 0);
    assert_eq!(back[0].1.description(), "b");
}
