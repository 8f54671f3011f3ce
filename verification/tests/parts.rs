use comment_tree::{build_tree, parent_indices, visible_only};
use comment_tree::{CommentNode, CommentRecord, Timestamp};

fn row(id: i32, parent: Option<i32>, visible: bool) -> CommentRecord {
    CommentRecord {
        id,
        slug: String::from("slug"),
        name: String::from("name"),
        date: Timestamp { secs: 5, nanos: 6 },
        parent,
        text: String::from("text of the comment"),
        email: Some(String::from("a@b.c")),
        visible,
    }
}

#[test]
fn parent_positions_are_resolved() {
    let records = vec![
        row(10, None, true),
        row(11, Some(10), true),
        row(12, Some(11), true),
        row(13, Some(10), true),
        row(14, Some(99), true),
        row(15, Some(15), true),
        row(16, Some(17), true),
        row(17, None, true),
    ];
    assert_eq!(
        parent_indices(&records),
        vec![None, Some(0), Some(1), Some(0), None, None, None, None]
    );
}

#[test]
fn parent_position_is_the_latest_earlier_one() {
    let records = vec![
        row(1, None, true),
        row(1, None, true),
        row(2, Some(1), true),
        row(1, Some(1), true),
        row(3, Some(1), true),
    ];
    assert_eq!(parent_indices(&records), vec![None, None, Some(1), None, Some(3)]);
}

#[test]
fn parent_positions_of_empty_input() {
    assert_eq!(parent_indices(&vec![]), Vec::<Option<usize>>::new());
}

#[test]
fn hidden_records_are_filtered_out() {
    let records = vec![
        row(1, None, true),
        row(2, Some(1), false),
        row(3, Some(2), true),
        row(4, None, false),
        row(5, Some(1), true),
    ];
    let shown = visible_only(records);
    assert_eq!(
        shown,
        vec![row(1, None, true), row(3, Some(2), true), row(5, Some(1), true)]
    );
}

#[test]
fn filter_keeps_all_visible_and_drops_all_hidden() {
    let all = vec![row(1, None, true), row(2, None, true)];
    assert_eq!(visible_only(all.clone()), all);
    let none = vec![row(1, None, false), row(2, None, false)];
    assert_eq!(visible_only(none), vec![]);
    assert_eq!(visible_only(vec![]), vec![]);
}

#[test]
fn reply_to_hidden_comment_is_promoted_after_filtering() {
    let records = vec![row(1, None, false), row(2, Some(1), true)];
    let forest = build_tree(visible_only(records));
    assert_eq!(forest.len(), 1);
    assert_eq!(forest[0].id, 2);
    assert!(forest[0].children.is_empty());
}

#[test]
fn new_node_has_the_record_fields_and_no_children() {
    let node = CommentNode::new(row(7, Some(3), false));
    assert_eq!(
        node,
        CommentNode {
            id: 7,
            slug: String::from("slug"),
            name: String::from("name"),
            date: Timestamp { secs: 5, nanos: 6 },
            text: String::from("text of the comment"),
            email: Some(String::from("a@b.c")),
            children: vec![],
        }
    );
}

#[test]
fn add_child_appends_at_the_end() {
    let mut node = CommentNode::new(row(1, None, true));
    node.add_child(CommentNode::new(row(2, Some(1), true)));
    node.add_child(CommentNode::new(row(3, Some(1), true)));
    let ids: Vec<i32> = node.children.iter().map(|child| child.id).collect();
    assert_eq!(ids, vec![2, 3]);
    assert_eq!(node.id, 1);
    assert_eq!(node.text, "text of the comment");
}

#[test]
fn clone_of_node_is_equal_at_every_depth() {
    let forest = build_tree(vec![
        row(1, None, true),
        row(2, Some(1), true),
        row(3, Some(2), true),
        row(4, Some(1), true),
    ]);
    let copy = forest[0].clone();
    assert_eq!(copy, forest[0]);
    assert_eq!(copy.children[0].children[0].id, 3);
}

#[test]
fn clone_of_record_is_equal() {
    let record = row(9, Some(4), false);
    assert_eq!(record.clone(), record);
}
