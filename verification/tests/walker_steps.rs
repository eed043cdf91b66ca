use drop_listing::handle::HandleInfo;
use drop_listing::walker::{Event, Request, Walker};

fn info(name: &str, kind: &str) -> Result<HandleInfo, String> {
    Ok(HandleInfo { name: name.to_string(), kind: kind.to_string() })
}

#[test]
fn seed_turns_to_the_last_item() {
    let w = Walker::seed(vec![Some(10u32), None, Some(30)]);
    assert_eq!(w.request(), Request::Read);
    assert_eq!(w.handle(), Some(&30));
    assert_eq!(w.pending(), 1);
    assert!(!w.is_finished());
}

#[test]
fn seed_of_nothing_is_finished() {
    let w: Walker<u32> = Walker::seed(vec![]);
    assert!(w.is_finished());
    assert_eq!(w.request(), Request::Nothing);
    assert_eq!(w.handle(), None);
    let w: Walker<u32> = Walker::seed(vec![None, None, None]);
    assert!(w.is_finished());
    assert_eq!(w.pending(), 0);
}

#[test]
fn file_ends_its_unit() {
    let w = Walker::seed(vec![Some(1u32), Some(2)]);
    let (w, e) = w.step(Event::Read(info("b.txt", "file")));
    assert_eq!(e.unwrap().line(), "Handles [1] /file: b.txt");
    assert_eq!(w.request(), Request::Read);
    assert_eq!(w.handle(), Some(&1));
    let (w, e) = w.step(Event::Read(info("a.txt", "file")));
    assert_eq!(e.unwrap().line(), "Handles [0] /file: a.txt");
    assert!(w.is_finished());
    assert_eq!(w.pending(), 0);
}

#[test]
fn directory_asks_for_its_children_and_stacks_them_in_order() {
    let w = Walker::seed(vec![Some(1u32)]);
    let (w, e) = w.step(Event::Read(info("d", "directory")));
    assert_eq!(e.unwrap().line(), "Handles [0] /directory: d");
    assert_eq!(w.request(), Request::List);
    assert_eq!(w.handle(), Some(&1));
    let (w, e) = w.step(Event::Listed(Ok(vec![11, 12, 13])));
    assert!(e.is_none());
    assert_eq!(w.request(), Request::Read);
    assert_eq!(w.handle(), Some(&13));
    assert_eq!(w.pending(), 2);
    let (w, e) = w.step(Event::Read(info("z", "file")));
    assert_eq!(e.unwrap().line(), "Handles [0] /d/file: z");
    assert_eq!(w.handle(), Some(&12));
    let (w, e) = w.step(Event::Read(info("y", "directory")));
    assert_eq!(e.unwrap().line(), "Handles [0] /d/directory: y");
    let (w, e) = w.step(Event::Listed(Ok(vec![121])));
    assert!(e.is_none());
    assert_eq!(w.handle(), Some(&121));
    let (w, e) = w.step(Event::Read(info("deep", "file")));
    assert_eq!(e.unwrap().line(), "Handles [0] /d/y/file: deep");
    assert_eq!(w.handle(), Some(&11));
    let (w, e) = w.step(Event::Read(info("x", "file")));
    assert_eq!(e.unwrap().line(), "Handles [0] /d/file: x");
    assert!(w.is_finished());
}

#[test]
fn empty_directory_stacks_nothing() {
    let w = Walker::seed(vec![Some(1u32), Some(2)]);
    let (w, _) = w.step(Event::Read(info("d", "directory")));
    let (w, e) = w.step(Event::Listed(Ok(vec![])));
    assert!(e.is_none());
    assert_eq!(w.handle(), Some(&1));
    assert_eq!(w.pending(), 0);
}

#[test]
fn failed_expansion_gives_one_error_and_goes_on() {
    let w = Walker::seed(vec![Some(1u32), Some(2)]);
    let (w, _) = w.step(Event::Read(info("bad", "directory")));
    let (w, e) = w.step(Event::Listed(Err("no luck".to_string())));
    let e = e.unwrap();
    assert!(e.is_diagnostic());
    assert_eq!(e.prefix, "Handles [1] /");
    assert_eq!(e.body, "Failed getting Directory handle values for bad: no luck");
    assert_eq!(e.line(), "Handles [1] /Failed getting Directory handle values for bad: no luck");
    assert_eq!(w.request(), Request::Read);
    assert_eq!(w.handle(), Some(&1));
    assert_eq!(w.pending(), 0);
}

#[test]
fn unknown_kind_gives_one_error_and_goes_on() {
    let w = Walker::seed(vec![Some(1u32), Some(2)]);
    let (w, e) = w.step(Event::Read(info("odd", "device")));
    let e = e.unwrap();
    assert!(e.is_diagnostic());
    assert_eq!(e.line(), "Handles [1] /unknown kind: device");
    assert_eq!(w.request(), Request::Read);
    assert_eq!(w.handle(), Some(&1));
}

#[test]
fn unreadable_handle_gives_one_error_and_goes_on() {
    let w = Walker::seed(vec![Some(1u32), Some(2)]);
    let (w, e) = w.step(Event::Read(Err("Handle property 'kind' is not string".to_string())));
    let e = e.unwrap();
    assert!(e.is_diagnostic());
    assert_eq!(e.line(), "Handles [1] /Handle property 'kind' is not string");
    assert_eq!(w.handle(), Some(&1));
}

#[test]
fn event_nobody_waits_for_changes_nothing() {
    let w = Walker::seed(vec![Some(1u32), Some(2)]);
    let (w, e) = w.step(Event::Listed(Ok(vec![7, 8])));
    assert!(e.is_none());
    assert_eq!(w.request(), Request::Read);
    assert_eq!(w.handle(), Some(&2));
    assert_eq!(w.pending(), 1);
    let (w, _) = w.step(Event::Read(info("d", "directory")));
    let (w, e) = w.step(Event::Read(info("again", "file")));
    assert!(e.is_none());
    assert_eq!(w.request(), Request::List);
    assert_eq!(w.handle(), Some(&2));
    let w: Walker<u32> = Walker::seed(vec![]);
    let (w, e) = w.step(Event::Read(info("late", "file")));
    assert!(e.is_none());
    assert!(w.is_finished());
}

#[test]
fn kind_tags_are_matched_exactly() {
    let w = Walker::seed(vec![Some(1u32)]);
    let (_, e) = w.step(Event::Read(info("n", "File")));
    assert_eq!(e.unwrap().line(), "Handles [0] /unknown kind: File");
    let w = Walker::seed(vec![Some(1u32)]);
    let (_, e) = w.step(Event::Read(info("n", "")));
    assert_eq!(e.unwrap().line(), "Handles [0] /unknown kind: ");
}
