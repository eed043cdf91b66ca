use drop_listing::item::{
    choose_strategy, fetch_plan, flat_file_line, flat_file_lines, items_line, missing_item_line,
    normalize, ready_line, DropItem, FetchStep, FileItem, FileOutcome, Strategy,
};

fn item(kind: &str, offers_handle: bool) -> Option<DropItem> {
    Some(DropItem { kind: kind.to_string(), offers_handle })
}

#[test]
fn normalize_keeps_files_in_order() {
    let slots = vec![
        item("string", true),
        item("file", true),
        None,
        item("file", false),
        item("File", true),
        item("file", true),
    ];
    assert_eq!(
        normalize(&slots),
        vec![
            FileItem { slot: 1, offers_handle: true },
            FileItem { slot: 3, offers_handle: false },
            FileItem { slot: 5, offers_handle: true },
        ]
    );
}

#[test]
fn normalize_of_nothing_is_empty() {
    assert_eq!(normalize(&vec![]), vec![]);
    assert_eq!(normalize(&vec![None, item("string", true), None]), vec![]);
}

#[test]
fn strategy_goes_by_the_first_item() {
    assert_eq!(choose_strategy(&vec![]), Strategy::Nothing);
    let with = FileItem { slot: 0, offers_handle: true };
    let without = FileItem { slot: 1, offers_handle: false };
    assert_eq!(choose_strategy(&vec![with, without]), Strategy::Handles);
    assert_eq!(choose_strategy(&vec![without, with]), Strategy::Files);
}

#[test]
fn all_handles_are_requested_before_the_wait() {
    let items = vec![
        FileItem { slot: 2, offers_handle: true },
        FileItem { slot: 3, offers_handle: true },
        FileItem { slot: 7, offers_handle: true },
    ];
    let plan = fetch_plan(&items);
    assert_eq!(
        plan,
        vec![
            FetchStep::Request(2),
            FetchStep::Request(3),
            FetchStep::Request(7),
            FetchStep::AwaitAll
        ]
    );
    let wait = plan.iter().position(|s| *s == FetchStep::AwaitAll).unwrap();
    assert!(plan.iter().skip(wait).all(|s| *s == FetchStep::AwaitAll));
    assert_eq!(fetch_plan(&vec![]), vec![FetchStep::AwaitAll]);
}

#[test]
fn flat_file_listing() {
    assert_eq!(
        flat_file_line(0, &FileOutcome::Found("a.txt".to_string())),
        "Items [0] filename: a.txt"
    );
    assert_eq!(flat_file_line(1, &FileOutcome::NotAFile), "Items [1] not a file");
    assert_eq!(flat_file_line(25, &FileOutcome::Failed), "Items [25] failed get_as_file()");
    let lines = flat_file_lines(&vec![
        FileOutcome::Failed,
        FileOutcome::Found("x".to_string()),
        FileOutcome::NotAFile,
    ]);
    assert_eq!(
        lines,
        vec!["Items [0] failed get_as_file()", "Items [1] filename: x", "Items [2] not a file"]
    );
    assert!(flat_file_lines(&vec![]).is_empty());
}

#[test]
fn fixed_lines() {
    assert_eq!(missing_item_line(4), "Items [4] failed get()");
    assert_eq!(items_line(0), "Items: 0");
    assert_eq!(items_line(12), "Items: 12");
    assert_eq!(ready_line(), "WASM Demo initialized, ready for drag and drop");
}
