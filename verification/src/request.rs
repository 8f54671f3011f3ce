//! A comment on its way in: what a client sends, and what is stored of it.

use vstd::prelude::*;

verus! {

/// The fewest characters a name may have.
pub const NAME_MIN: u64 = 2;

/// The most characters a name may have.
pub const NAME_MAX: u64 = 64;

/// The fewest characters a comment text may have.
pub const TEXT_MIN: u64 = 10;

/// The most characters a comment text may have.
pub const TEXT_MAX: u64 = 10_000;

/// A request to create a comment, as a client sends it.
#[derive(Clone, Debug, PartialEq, Eq)]
pub struct CommentReq {
    pub name: String,
    pub text: String,
    pub email: Option<String>,
    pub parent: Option<i32>,
}

/// A new comment, about to be stored.
#[derive(Clone, Debug, PartialEq, Eq)]
pub struct NewComment {
    pub slug: String,
    pub name: String,
    pub text: String,
    pub email: Option<String>,
    pub parent: Option<i32>,
}

/// The fields of a new comment that were refused for their length.
#[derive(Clone, Copy, Debug, PartialEq, Eq)]
pub struct InvalidFields {
    /// The name is too short or too long.
    pub name: bool,
    /// The text is too short or too long.
    pub text: bool,
}

/// A name of this many characters is accepted.
pub open spec fn name_allowed(name: Seq<char>) -> bool {
    NAME_MIN <= name.len() <= NAME_MAX
}

/// A text of this many characters is accepted.
pub open spec fn text_allowed(text: Seq<char>) -> bool {
    TEXT_MIN <= text.len() <= TEXT_MAX
}

/// Whether `value` has at least `min` and at most `max` characters.
///
/// Calls `validator::validate_length` with both bounds and no exact length.
/// For a string that function counts characters, not bytes, and accepts the
/// count where it is neither below `min` nor above `max`. This is believed,
/// not proved.
#[verifier::external_body]
fn length_within(value: &str, min: u64, max: u64) -> (ok: bool)
    ensures
        ok == (min <= value@.len() <= max),
{
    validator::validate_length(value, Some(min), Some(max), None)
}

impl NewComment {
    /// The comment that `request` asks for, on the article `slug`.
    pub fn from_request(slug: String, request: CommentReq) -> (comment: NewComment)
        ensures
            comment.slug == slug,
            comment.name == request.name,
            comment.text == request.text,
            comment.email == request.email,
            comment.parent == request.parent,
    {
        NewComment {
            slug,
            name: request.name,
            text: request.text,
            email: request.email,
            parent: request.parent,
        }
    }

    /// Checks the lengths of name and text. Both are always checked, and
    /// every field that fails is reported.
    pub fn validate(&self) -> (result: Result<(), InvalidFields>)
        ensures
            match result {
                Ok(()) => name_allowed(self.name@) && text_allowed(self.text@),
                Err(refused) => {
                    &&& refused.name == !name_allowed(self.name@)
                    &&& refused.text == !text_allowed(self.text@)
                    &&& refused.name || refused.text
                },
            },
    {
        let name = !length_within(self.name.as_str(), NAME_MIN, NAME_MAX);
        let text = !length_within(self.text.as_str(), TEXT_MIN, TEXT_MAX);
        if name || text {
            Err(InvalidFields { name, text })
        } else {
            Ok(())
        }
    }
}

} // verus!
