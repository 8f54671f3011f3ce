use comment_tree::{CommentReq, InvalidFields, NewComment};

fn comment(name: &str, text: &str) -> NewComment {
    NewComment {
        slug: String::from("a-post"),
        name: String::from(name),
        text: String::from(text),
        email: None,
        parent: None,
    }
}

#[test]
fn request_becomes_new_comment_on_the_article() {
    let request = CommentReq {
        name: String::from("Ada"),
        text: String::from("a thoughtful remark"),
        email: Some(String::from("ada@example.org")),
        parent: Some(12),
    };
    assert_eq!(
        NewComment::from_request(String::from("a-post"), request),
        NewComment {
            slug: String::from("a-post"),
            name: String::from("Ada"),
            text: String::from("a thoughtful remark"),
            email: Some(String::from("ada@example.org")),
            parent: Some(12),
        }
    );
}

#[test]
fn comment_with_name_and_text_in_bounds_is_accepted() {
    assert_eq!(comment("Ada", "a thoughtful remark").validate(), Ok(()));
}

#[test]
fn name_length_bounds_are_two_and_sixty_four() {
    let text = "long enough text";
    assert_eq!(
        comment("", text).validate(),
        Err(InvalidFields { name: true, text: false })
    );
    assert_eq!(
        comment("a", text).validate(),
        Err(InvalidFields { name: true, text: false })
    );
    assert_eq!(comment("ab", text).validate(), Ok(()));
    assert_eq!(comment(&"n".repeat(64), text).validate(), Ok(()));
    assert_eq!(
        comment(&"n".repeat(65), text).validate(),
        Err(InvalidFields { name: true, text: false })
    );
}

#[test]
fn text_length_bounds_are_ten_and_ten_thousand() {
    assert_eq!(
        comment("Ada", "123456789").validate(),
        Err(InvalidFields { name: false, text: true })
    );
    assert_eq!(comment("Ada", "1234567890").validate(), Ok(()));
    assert_eq!(comment("Ada", &"t".repeat(10_000)).validate(), Ok(()));
    assert_eq!(
        comment("Ada", &"t".repeat(10_001)).validate(),
        Err(InvalidFields { name: false, text: true })
    );
}

#[test]
fn both_fields_are_reported_when_both_fail() {
    assert_eq!(
        comment("a", "short").validate(),
        Err(InvalidFields { name: true, text: true })
    );
}

#[test]
fn length_counts_characters_not_bytes() {
    let text = "long enough text";
    assert_eq!(comment("日本", text).validate(), Ok(()));
    assert_eq!(comment(&"é".repeat(64), text).validate(), Ok(()));
    assert_eq!(
        comment(&"é".repeat(65), text).validate(),
        Err(InvalidFields { name: true, text: false })
    );
    assert_eq!(
        comment("Ada", "日本語のコメント").validate(),
        Err(InvalidFields { name: false, text: true })
    );
    assert_eq!(comment("Ada", "日本語のコメントです。").validate(), Ok(()));
}
