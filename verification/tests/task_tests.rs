use todo_core::task::{CreateTaskRequest, Priority, Task, UpdateTaskRequest};

fn minimal_request(title: &str) -> CreateTaskRequest {
    CreateTaskRequest {
        title: title.to_string(),
        description: None,
        priority: None,
        due_date: None,
        category_id: None,
        tags: None,
        parent_id: None,
    }
}

#[test]
fn priority_from_string_recognizes_exact_texts() {
    assert!(matches!(Priority::from_string("Low"), Priority::Low));
    assert!(matches!(Priority::from_string("High"), Priority::High));
    assert!(matches!(Priority::from_string("Medium"), Priority::Medium));
    // only the exact texts count; anything else silently becomes Medium
    assert!(matches!(Priority::from_string("low"), Priority::Medium));
    assert!(matches!(Priority::from_string("HIGH"), Priority::Medium));
    assert!(matches!(Priority::from_string("urgent"), Priority::Medium));
    assert!(matches!(Priority::from_string(""), Priority::Medium));
}

#[test]
fn priority_texts_round_trip() {
    assert_eq!(Priority::Low.to_string(), "Low");
    assert_eq!(Priority::Medium.to_string(), "Medium");
    assert_eq!(Priority::High.to_string(), "High");
    assert!(matches!(Priority::default(), Priority::Medium));
}

#[test]
fn new_task_gets_defaults_and_stamps() {
    let t = Task::new(minimal_request("water the plants"), 100);
    assert_eq!(t.title, "water the plants");
    assert_eq!(t.description, None);
    assert!(!t.completed);
    assert!(matches!(t.priority, Priority::Medium));
    assert_eq!(t.due_date, None);
    assert_eq!(t.category_id, None);
    assert!(t.tags.is_empty());
    assert_eq!(t.parent_id, None);
    assert_eq!(t.created_at, 100);
    assert_eq!(t.updated_at, 100);
    assert_eq!(t.id.chars().count(), 36);
}

#[test]
fn new_task_ids_are_fresh() {
    let a = Task::new(minimal_request("a"), 1);
    let b = Task::new(minimal_request("b"), 1);
    assert_ne!(a.id, b.id);
}

#[test]
fn new_task_parses_bare_date_as_start_of_day() {
    let mut req = minimal_request("due soon");
    req.due_date = Some("2025-01-10".to_string());
    let t = Task::new(req, 0);
    // 2025-01-10T00:00:00Z
    assert_eq!(t.due_date, Some(1736467200));
}

#[test]
fn new_task_parses_full_rfc3339() {
    let mut req = minimal_request("due soon");
    req.due_date = Some("2025-01-10T12:30:00Z".to_string());
    let t = Task::new(req, 0);
    assert_eq!(t.due_date, Some(1736512200));
}

#[test]
fn new_task_normalizes_offsets_to_utc() {
    let mut req = minimal_request("due soon");
    req.due_date = Some("2025-01-10T00:00:00+02:00".to_string());
    let t = Task::new(req, 0);
    // two hours before midnight UTC
    assert_eq!(t.due_date, Some(1736460000));
}

#[test]
fn new_task_coerces_bad_dates_to_none() {
    let mut req = minimal_request("no date");
    req.due_date = Some("not a date".to_string());
    let t = Task::new(req, 0);
    assert_eq!(t.due_date, None);

    let mut req2 = minimal_request("empty date");
    req2.due_date = Some("".to_string());
    let t2 = Task::new(req2, 0);
    assert_eq!(t2.due_date, None);
}

#[test]
fn new_task_takes_request_fields() {
    let req = CreateTaskRequest {
        title: "buy milk".to_string(),
        description: Some("two liters".to_string()),
        priority: Some("High".to_string()),
        due_date: None,
        category_id: Some("cat-1".to_string()),
        tags: Some(vec!["errand".to_string(), "home".to_string()]),
        parent_id: Some("parent-1".to_string()),
    };
    let t = Task::new(req, 7);
    assert_eq!(t.description.as_deref(), Some("two liters"));
    assert!(matches!(t.priority, Priority::High));
    assert_eq!(t.category_id.as_deref(), Some("cat-1"));
    assert_eq!(t.tags, vec!["errand".to_string(), "home".to_string()]);
    assert_eq!(t.parent_id.as_deref(), Some("parent-1"));
}

#[test]
fn update_overwrites_present_fields_only() {
    let mut t = Task::new(minimal_request("before"), 10);
    let update = UpdateTaskRequest {
        title: Some("renamed".to_string()),
        description: None,
        completed: Some(true),
        priority: None,
        due_date: Some(5000),
        category_id: None,
        tags: None,
        parent_id: None,
    };
    t.update(update, 20);
    assert_eq!(t.title, "renamed");
    assert_eq!(t.description, None);
    assert!(t.completed);
    assert!(matches!(t.priority, Priority::Medium));
    assert_eq!(t.due_date, Some(5000));
    assert_eq!(t.created_at, 10);
    assert_eq!(t.updated_at, 20);
}

#[test]
fn update_refreshes_stamp_even_without_changes() {
    let mut t = Task::new(minimal_request("still the same"), 10);
    let update = UpdateTaskRequest {
        title: None,
        description: None,
        completed: None,
        priority: None,
        due_date: None,
        category_id: None,
        tags: None,
        parent_id: None,
    };
    t.update(update, 42);
    assert_eq!(t.title, "still the same");
    assert_eq!(t.updated_at, 42);
}
