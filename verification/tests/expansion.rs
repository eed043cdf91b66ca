use drop_listing::expander::{CursorStep, ExpandFailure, Expansion, Progress};

fn pending(p: Progress<u32>) -> Expansion<u32> {
    match p {
        Progress::Pending(e) => e,
        Progress::Complete(r) => panic!("complete: {r:?}"),
    }
}

fn complete(p: Progress<u32>) -> Result<Vec<u32>, String> {
    match p {
        Progress::Complete(r) => r,
        Progress::Pending(_) => panic!("still pending"),
    }
}

#[test]
fn cursor_that_ends_gives_all_items_in_order() {
    let e = pending(Expansion::begin(None));
    let e = pending(e.feed(CursorStep::Item(3)));
    let e = pending(e.feed(CursorStep::Item(1)));
    let e = pending(e.feed(CursorStep::Item(2)));
    assert_eq!(complete(e.feed(CursorStep::Done)), Ok(vec![3, 1, 2]));
}

#[test]
fn cursor_that_ends_at_once_gives_no_items() {
    let e = pending(Expansion::begin(None));
    assert_eq!(complete(e.feed(CursorStep::Done)), Ok(vec![]));
}

#[test]
fn failure_at_a_step_drops_the_items() {
    let e = pending(Expansion::begin(None));
    let e = pending(e.feed(CursorStep::Item(3)));
    assert_eq!(
        complete(e.feed(CursorStep::Failed(ExpandFailure::StepRejected))),
        Err("Promise for Directory handle values() iterator next() failed".to_string())
    );
    let e = pending(Expansion::begin(None));
    let e = pending(e.feed(CursorStep::Item(3)));
    assert_eq!(
        complete(e.feed(CursorStep::Failed(ExpandFailure::StepThrew("JsValue(boom)".to_string())))),
        Err("Error iterating Directory handle values(): JsValue(boom)".to_string())
    );
}

#[test]
fn cursor_that_does_not_open_completes_at_once() {
    assert_eq!(
        complete(Expansion::begin(Some(ExpandFailure::ValuesMissing))),
        Err("Failed to get property 'values'".to_string())
    );
    assert_eq!(
        complete(Expansion::begin(Some(ExpandFailure::ValuesNotFunction))),
        Err("Handle has no 'values' function".to_string())
    );
    assert_eq!(
        complete(Expansion::begin(Some(ExpandFailure::CallFailed))),
        Err("Failed calling values on handle".to_string())
    );
    assert_eq!(
        complete(Expansion::begin(Some(ExpandFailure::NotCursor))),
        Err("Not AsyncIterator from values on handle".to_string())
    );
}

#[test]
fn failure_messages_and_copies() {
    let all = vec![
        ExpandFailure::ValuesMissing,
        ExpandFailure::ValuesNotFunction,
        ExpandFailure::CallFailed,
        ExpandFailure::NotCursor,
        ExpandFailure::StepThrew("e".to_string()),
        ExpandFailure::StepRejected,
    ];
    for f in &all {
        assert_eq!(f.duplicate(), *f);
        assert_eq!(f.duplicate().message(), f.message());
    }
    assert!(!ExpandFailure::ValuesMissing.cursor_opened());
    assert!(!ExpandFailure::ValuesNotFunction.cursor_opened());
    assert!(!ExpandFailure::CallFailed.cursor_opened());
    assert!(!ExpandFailure::NotCursor.cursor_opened());
    assert!(ExpandFailure::StepThrew("e".to_string()).cursor_opened());
    assert!(ExpandFailure::StepRejected.cursor_opened());
}
