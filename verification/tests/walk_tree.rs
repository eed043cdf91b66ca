use drop_listing::entry::EntryKind;
use drop_listing::expander::ExpandFailure;
use drop_listing::handle::HandleInfo;
use drop_listing::host::{enumerate, walk, HostNode, Walked};

fn node(name: &str, kind: &str, children: Vec<HostNode>) -> HostNode {
    HostNode {
        reading: Ok(HandleInfo { name: name.to_string(), kind: kind.to_string() }),
        children,
        failure: None,
    }
}

fn file(name: &str) -> HostNode {
    node(name, "file", vec![])
}

fn dir(name: &str, children: Vec<HostNode>) -> HostNode {
    node(name, "directory", children)
}

fn failing(name: &str, children: Vec<HostNode>, failure: ExpandFailure) -> HostNode {
    HostNode { failure: Some(failure), ..dir(name, children) }
}

fn lines(walked: &Walked) -> Vec<String> {
    walked.entries.iter().map(|e| e.line()).collect()
}

fn sorted(mut lines: Vec<String>) -> Vec<String> {
    lines.sort();
    lines
}

fn two_items() -> Vec<Option<HostNode>> {
    vec![
        Some(file("a.txt")),
        Some(dir("sub", vec![file("b.txt"), dir("sub2", vec![file("c.txt")])])),
    ]
}

#[test]
fn end_to_end_file_and_nested_directory() {
    let roots = two_items();
    let walked = walk(&roots);
    let expected = vec![
        "Handles [0] /file: a.txt".to_string(),
        "Handles [1] /directory: sub".to_string(),
        "Handles [1] /sub/file: b.txt".to_string(),
        "Handles [1] /sub/directory: sub2".to_string(),
        "Handles [1] /sub/sub2/file: c.txt".to_string(),
    ];
    assert_eq!(sorted(lines(&walked)), sorted(expected));
}

#[test]
fn end_to_end_order_is_last_in_first_out() {
    let roots = two_items();
    let walked = walk(&roots);
    assert_eq!(
        lines(&walked),
        vec![
            "Handles [1] /directory: sub".to_string(),
            "Handles [1] /sub/directory: sub2".to_string(),
            "Handles [1] /sub/sub2/file: c.txt".to_string(),
            "Handles [1] /sub/file: b.txt".to_string(),
            "Handles [0] /file: a.txt".to_string(),
        ]
    );
}

#[test]
fn walk_pops_once_for_each_reached_handle() {
    let roots = two_items();
    let walked = walk(&roots);
    assert_eq!(walked.pops, 5);
    assert_eq!(walked.entries.len(), 5);
    assert!(walked.end.is_finished());
    assert_eq!(walked.end.pending(), 0);
}

#[test]
fn walk_of_nothing_emits_nothing() {
    let roots = vec![];
    let walked = walk(&roots);
    assert!(walked.entries.is_empty());
    assert_eq!(walked.pops, 0);
    assert!(walked.end.is_finished());
    let roots = vec![None, None];
    let walked = walk(&roots);
    assert!(walked.entries.is_empty());
    assert_eq!(walked.pops, 0);
}

#[test]
fn item_without_handle_keeps_the_index_of_the_others() {
    let roots = vec![None, Some(file("late.txt"))];
    let walked = walk(&roots);
    assert_eq!(lines(&walked), vec!["Handles [1] /file: late.txt".to_string()]);
    assert_eq!(walked.pops, 1);
}

#[test]
fn failing_directory_leaves_siblings_alone() {
    let a = dir("A", vec![file("a1"), file("a2")]);
    let b = failing("B", vec![file("b1")], ExpandFailure::StepRejected);
    let c = dir("C", vec![dir("deep", vec![file("c1")])]);
    let roots = vec![Some(dir("top", vec![a, b, c]))];
    let walked = walk(&roots);
    let got = lines(&walked);
    let expected = vec![
        "Handles [0] /directory: top",
        "Handles [0] /top/directory: C",
        "Handles [0] /top/C/directory: deep",
        "Handles [0] /top/C/deep/file: c1",
        "Handles [0] /top/directory: B",
        "Handles [0] /top/Failed getting Directory handle values for B: Promise for Directory handle values() iterator next() failed",
        "Handles [0] /top/directory: A",
        "Handles [0] /top/A/file: a2",
        "Handles [0] /top/A/file: a1",
    ];
    assert_eq!(got, expected);
    let errors = walked.entries.iter().filter(|e| e.is_diagnostic()).count();
    assert_eq!(errors, 1);
    assert!(!got.iter().any(|l| l.contains("b1")));
    assert_eq!(walked.pops, 8);
}

#[test]
fn failing_item_leaves_other_items_alone() {
    let roots = vec![
        Some(dir("A", vec![file("a1")])),
        Some(failing("B", vec![], ExpandFailure::CallFailed)),
        Some(dir("C", vec![file("c1")])),
    ];
    let walked = walk(&roots);
    assert_eq!(
        lines(&walked),
        vec![
            "Handles [2] /directory: C",
            "Handles [2] /C/file: c1",
            "Handles [1] /directory: B",
            "Handles [1] /Failed getting Directory handle values for B: Failed calling values on handle",
            "Handles [0] /directory: A",
            "Handles [0] /A/file: a1",
        ]
    );
}

#[test]
fn unknown_kind_gives_one_error_and_no_children() {
    let odd = node("odd", "symlink", vec![file("hidden")]);
    let roots = vec![Some(dir("d", vec![odd, file("f")]))];
    let walked = walk(&roots);
    assert_eq!(
        lines(&walked),
        vec![
            "Handles [0] /directory: d",
            "Handles [0] /d/file: f",
            "Handles [0] /d/unknown kind: symlink",
        ]
    );
    assert_eq!(walked.entries[2].kind, EntryKind::Error);
    assert_eq!(walked.pops, 3);
}

#[test]
fn unreadable_handle_gives_one_error() {
    let broken = HostNode {
        reading: Err("Handle has no 'name' property".to_string()),
        children: vec![file("hidden")],
        failure: None,
    };
    let roots = vec![Some(file("ok")), Some(broken)];
    let walked = walk(&roots);
    assert_eq!(
        lines(&walked),
        vec!["Handles [1] /Handle has no 'name' property", "Handles [0] /file: ok"]
    );
    assert_eq!(walked.entries[0].kind, EntryKind::Error);
    assert_eq!(walked.pops, 2);
}

#[test]
fn file_with_children_is_not_expanded() {
    let roots = vec![Some(node("f", "file", vec![file("inner")]))];
    let walked = walk(&roots);
    assert_eq!(lines(&walked), vec!["Handles [0] /file: f"]);
}

#[test]
fn prefixes_name_every_ancestor() {
    let deep = dir("a", vec![dir("b", vec![dir("c", vec![file("leaf")])])]);
    let mut roots: Vec<Option<HostNode>> = Vec::new();
    for _ in 0..12 {
        roots.push(None);
    }
    roots.push(Some(deep));
    let walked = walk(&roots);
    assert_eq!(
        lines(&walked),
        vec![
            "Handles [12] /directory: a",
            "Handles [12] /a/directory: b",
            "Handles [12] /a/b/directory: c",
            "Handles [12] /a/b/c/file: leaf",
        ]
    );
    assert_eq!(walked.entries[3].prefix, "Handles [12] /a/b/c/");
    assert_eq!(walked.entries[3].body, "leaf");
    assert_eq!(walked.entries[3].kind, EntryKind::File);
}

#[test]
fn every_node_of_a_wide_tree_is_listed_once() {
    let mut children = Vec::new();
    for i in 0..40 {
        children.push(dir(&format!("d{i}"), vec![file(&format!("f{i}")), dir("empty", vec![])]));
    }
    let roots = vec![Some(dir("root", children))];
    let walked = walk(&roots);
    assert_eq!(walked.pops, 1 + 40 * 3);
    let got = lines(&walked);
    assert_eq!(got.len(), 121);
    let mut unique = got.clone();
    unique.sort();
    unique.dedup();
    assert_eq!(unique.len(), 121);
    for i in 0..40 {
        assert!(got.contains(&format!("Handles [0] /root/directory: d{i}")));
        assert!(got.contains(&format!("Handles [0] /root/d{i}/file: f{i}")));
        assert!(got.contains(&format!("Handles [0] /root/d{i}/directory: empty")));
    }
}

#[test]
fn enumerate_yields_children_in_order() {
    let d = dir("d", vec![file("x"), file("y"), file("z")]);
    let children = enumerate(&d).unwrap();
    let names: Vec<String> =
        children.iter().map(|c| c.reading.as_ref().unwrap().name.clone()).collect();
    assert_eq!(names, vec!["x", "y", "z"]);
}

#[test]
fn enumerate_drops_children_on_failure() {
    let d = failing("d", vec![file("x")], ExpandFailure::StepThrew("TypeError".to_string()));
    assert_eq!(
        enumerate(&d),
        Err("Error iterating Directory handle values(): TypeError".to_string())
    );
    let d = failing("d", vec![file("x")], ExpandFailure::ValuesMissing);
    assert_eq!(enumerate(&d), Err("Failed to get property 'values'".to_string()));
}

fn listed_by_recursion(n: &HostNode, prefix: &str, out: &mut Vec<String>) {
    match &n.reading {
        Err(reason) => out.push(format!("{prefix}{reason}")),
        Ok(info) if info.kind == "file" => out.push(format!("{prefix}file: {}", info.name)),
        Ok(info) if info.kind == "directory" => {
            out.push(format!("{prefix}directory: {}", info.name));
            match &n.failure {
                Some(f) => out.push(format!(
                    "{prefix}Failed getting Directory handle values for {}: {}",
                    info.name,
                    f.message()
                )),
                None => {
                    let below = format!("{prefix}{}/", info.name);
                    for child in n.children.iter().rev() {
                        listed_by_recursion(child, &below, out);
                    }
                }
            }
        }
        Ok(info) => out.push(format!("{prefix}unknown kind: {}", info.kind)),
    }
}

fn grown(depth: usize, seed: usize) -> HostNode {
    if depth == 0 || seed % 5 == 0 {
        return file(&format!("f{seed}"));
    }
    if seed % 11 == 3 {
        return node(&format!("o{seed}"), "pipe", vec![file("never")]);
    }
    let mut children = Vec::new();
    for i in 0..(seed % 4) {
        children.push(grown(depth - 1, seed * 7 + i * 3 + 1));
    }
    if seed % 7 == 2 {
        failing(&format!("x{seed}"), children, ExpandFailure::NotCursor)
    } else {
        dir(&format!("d{seed}"), children)
    }
}

#[test]
fn walk_agrees_with_a_recursive_listing() {
    let mut roots: Vec<Option<HostNode>> = Vec::new();
    for seed in 1..40 {
        roots.push(if seed % 6 == 0 { None } else { Some(grown(5, seed)) });
    }
    let walked = walk(&roots);
    let mut expected = Vec::new();
    let mut reached = 0;
    for (i, root) in roots.iter().enumerate().rev() {
        if let Some(n) = root {
            let before = expected.len();
            listed_by_recursion(n, &format!("Handles [{i}] /"), &mut expected);
            reached += expected[before..].iter().filter(|l| !l.contains("Failed getting")).count();
        }
    }
    assert!(expected.len() > 100);
    assert_eq!(lines(&walked), expected);
    assert_eq!(walked.pops, reached);
    assert!(walked.end.is_finished());
    assert_eq!(walked.end.pending(), 0);
}

#[test]
fn directory_comes_before_what_it_holds() {
    let roots = two_items();
    let got = lines(&walk(&roots));
    let at = |line: &str| got.iter().position(|l| l == line).unwrap();
    assert!(at("Handles [1] /directory: sub") < at("Handles [1] /sub/file: b.txt"));
    assert!(at("Handles [1] /directory: sub") < at("Handles [1] /sub/directory: sub2"));
    assert!(at("Handles [1] /sub/directory: sub2") < at("Handles [1] /sub/sub2/file: c.txt"));
}
