use comment_tree::{build_tree, build_tree_with_policy, CommentNode, CommentRecord, OrphanPolicy, Timestamp, TreeError};

fn record(id: i32, parent: Option<i32>) -> CommentRecord {
    CommentRecord {
        id,
        slug: String::from("hello-world"),
        name: format!("author {}", id),
        date: Timestamp { secs: 1_600_000_000 + id as i64, nanos: 0 },
        parent,
        text: format!("comment number {}", id),
        email: None,
        visible: true,
    }
}

fn node(id: i32, children: Vec<CommentNode>) -> CommentNode {
    CommentNode {
        id,
        slug: String::from("hello-world"),
        name: format!("author {}", id),
        date: Timestamp { secs: 1_600_000_000 + id as i64, nanos: 0 },
        text: format!("comment number {}", id),
        email: None,
        children,
    }
}

fn to_json(node: &CommentNode) -> serde_json::Value {
    let mut fields = serde_json::Map::new();
    fields.insert(String::from("id"), serde_json::Value::from(node.id));
    fields.insert(String::from("slug"), serde_json::Value::from(node.slug.as_str()));
    fields.insert(String::from("name"), serde_json::Value::from(node.name.as_str()));
    fields.insert(String::from("date"), serde_json::Value::from(node.date.secs));
    fields.insert(String::from("text"), serde_json::Value::from(node.text.as_str()));
    fields.insert(String::from("email"), serde_json::Value::from(node.email.clone()));
    fields.insert(
        String::from("children"),
        serde_json::Value::Array(node.children.iter().map(to_json).collect()),
    );
    serde_json::Value::Object(fields)
}

#[test]
fn tree() {
    let comments = build_tree(vec![
        record(1, None),
        record(2, Some(1)),
        record(3, Some(1)),
        record(4, Some(2)),
    ]);
    let json = serde_json::Value::Array(comments.iter().map(to_json).collect());
    let printed = serde_json::to_string(&json).unwrap();
    println!("{}", printed);
    let read_back: serde_json::Value = serde_json::from_str(&printed).unwrap();
    assert_eq!(read_back[0]["id"], 1);
    assert_eq!(read_back[0]["children"][0]["id"], 2);
    assert_eq!(read_back[0]["children"][0]["children"][0]["id"], 4);
    assert_eq!(read_back[0]["children"][1]["id"], 3);
    assert_eq!(read_back[0]["children"][1]["children"].as_array().unwrap().len(), 0);
}

#[test]
fn nested_replies_hang_under_their_parents() {
    let forest = build_tree(vec![
        record(1, None),
        record(2, Some(1)),
        record(3, Some(1)),
        record(4, Some(2)),
    ]);
    let expected = vec![node(1, vec![node(2, vec![node(4, vec![])]), node(3, vec![])])];
    assert_eq!(forest, expected);
}

#[test]
fn empty_input_gives_empty_forest() {
    assert_eq!(build_tree(vec![]), Vec::<CommentNode>::new());
    for policy in [OrphanPolicy::Fail, OrphanPolicy::Promote, OrphanPolicy::Drop] {
        assert_eq!(build_tree_with_policy(vec![], policy), Ok(vec![]));
    }
}

#[test]
fn orphan_is_promoted_to_root() {
    assert_eq!(build_tree(vec![record(2, Some(1))]), vec![node(2, vec![])]);
    assert_eq!(
        build_tree_with_policy(vec![record(2, Some(1))], OrphanPolicy::Promote),
        Ok(vec![node(2, vec![])])
    );
}

#[test]
fn orphan_fails_the_request_under_fail_policy() {
    assert_eq!(
        build_tree_with_policy(vec![record(2, Some(1))], OrphanPolicy::Fail),
        Err(TreeError::MissingParent { id: 2, parent: 1 })
    );
}

#[test]
fn first_orphan_is_the_one_reported() {
    let records = vec![
        record(1, None),
        record(2, Some(1)),
        record(5, Some(9)),
        record(6, Some(8)),
    ];
    assert_eq!(
        build_tree_with_policy(records, OrphanPolicy::Fail),
        Err(TreeError::MissingParent { id: 5, parent: 9 })
    );
}

#[test]
fn fail_policy_succeeds_without_orphans() {
    let records = vec![record(1, None), record(2, Some(1)), record(3, None)];
    assert_eq!(
        build_tree_with_policy(records, OrphanPolicy::Fail),
        Ok(vec![node(1, vec![node(2, vec![])]), node(3, vec![])])
    );
}

#[test]
fn orphan_is_dropped_with_its_replies_under_drop_policy() {
    let records = vec![
        record(1, None),
        record(5, Some(9)),
        record(6, Some(5)),
        record(2, Some(1)),
        record(7, Some(6)),
    ];
    assert_eq!(
        build_tree_with_policy(records, OrphanPolicy::Drop),
        Ok(vec![node(1, vec![node(2, vec![])])])
    );
}

#[test]
fn promoted_orphan_keeps_its_replies() {
    let records = vec![record(5, Some(9)), record(1, None), record(6, Some(5))];
    assert_eq!(
        build_tree(records),
        vec![node(5, vec![node(6, vec![])]), node(1, vec![])]
    );
}

#[test]
fn reply_before_its_parent_is_an_orphan() {
    let records = vec![record(2, Some(1)), record(1, None)];
    assert_eq!(build_tree(records), vec![node(2, vec![]), node(1, vec![])]);
    let records = vec![record(2, Some(1)), record(1, None)];
    assert_eq!(
        build_tree_with_policy(records, OrphanPolicy::Fail),
        Err(TreeError::MissingParent { id: 2, parent: 1 })
    );
    let records = vec![record(2, Some(1)), record(1, None)];
    assert_eq!(
        build_tree_with_policy(records, OrphanPolicy::Drop),
        Ok(vec![node(1, vec![])])
    );
}

#[test]
fn comment_naming_itself_is_an_orphan() {
    assert_eq!(build_tree(vec![record(3, Some(3))]), vec![node(3, vec![])]);
    assert_eq!(
        build_tree_with_policy(vec![record(3, Some(3))], OrphanPolicy::Fail),
        Err(TreeError::MissingParent { id: 3, parent: 3 })
    );
    assert_eq!(
        build_tree_with_policy(vec![record(3, Some(3))], OrphanPolicy::Drop),
        Ok(vec![])
    );
}

#[test]
fn reply_hangs_under_latest_earlier_record_with_the_identifier() {
    let records = vec![record(1, None), record(1, None), record(2, Some(1)), record(1, None)];
    assert_eq!(
        build_tree(records),
        vec![node(1, vec![]), node(1, vec![node(2, vec![])]), node(1, vec![])]
    );
}

#[test]
fn several_roots_keep_input_order() {
    let records = vec![
        record(10, None),
        record(11, Some(10)),
        record(20, None),
        record(21, Some(20)),
        record(12, Some(10)),
        record(30, None),
    ];
    assert_eq!(
        build_tree(records),
        vec![
            node(10, vec![node(11, vec![]), node(12, vec![])]),
            node(20, vec![node(21, vec![])]),
            node(30, vec![]),
        ]
    );
}

#[test]
fn deep_chain_nests_one_below_the_other() {
    let mut records = vec![record(0, None)];
    for id in 1..200 {
        records.push(record(id, Some(id - 1)));
    }
    let forest = build_tree(records);
    assert_eq!(forest.len(), 1);
    let mut at = &forest[0];
    for id in 0..199 {
        assert_eq!(at.id, id);
        assert_eq!(at.children.len(), 1);
        at = &at.children[0];
    }
    assert_eq!(at.id, 199);
    assert!(at.children.is_empty());
}

#[test]
fn node_carries_the_fields_of_its_record() {
    let input = CommentRecord {
        id: 42,
        slug: String::from("a-post"),
        name: String::from("Ada"),
        date: Timestamp { secs: 1_234_567_890, nanos: 123_456_789 },
        parent: None,
        text: String::from("first comment here"),
        email: Some(String::from("ada@example.org")),
        visible: false,
    };
    let forest = build_tree(vec![input]);
    assert_eq!(
        forest,
        vec![CommentNode {
            id: 42,
            slug: String::from("a-post"),
            name: String::from("Ada"),
            date: Timestamp { secs: 1_234_567_890, nanos: 123_456_789 },
            text: String::from("first comment here"),
            email: Some(String::from("ada@example.org")),
            children: vec![],
        }]
    );
}
