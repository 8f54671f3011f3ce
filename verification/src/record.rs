//! The flat comment record, as it is read from storage.

use vstd::prelude::*;

verus! {

/// A point in time: whole seconds since the Unix epoch, and the nanoseconds
/// into that second. The tree builder carries it along and never looks inside.
#[derive(Clone, Copy, Debug, PartialEq, Eq, Hash)]
pub struct Timestamp {
    pub secs: i64,
    pub nanos: u32,
}

/// One comment as stored: a row of the comments table.
#[derive(Debug, PartialEq, Eq)]
pub struct CommentRecord {
    /// Unique identifier of the comment.
    pub id: i32,
    /// Key of the article the comment belongs to.
    pub slug: String,
    /// Author name.
    pub name: String,
    /// Creation time.
    pub date: Timestamp,
    /// Identifier of the comment this one replies to, if any.
    pub parent: Option<i32>,
    /// Body text.
    pub text: String,
    /// Author email, if given.
    pub email: Option<String>,
    /// `false` while the comment waits in the moderation queue.
    pub visible: bool,
}

/// The mathematical value of a [`CommentRecord`].
pub struct RecordModel {
    pub id: int,
    pub slug: Seq<char>,
    pub name: Seq<char>,
    pub date: Timestamp,
    pub parent: Option<int>,
    pub text: Seq<char>,
    pub email: Option<Seq<char>>,
    pub visible: bool,
}

impl CommentRecord {
    /// The record as a mathematical value.
    pub open spec fn model(self) -> RecordModel {
        RecordModel {
            id: self.id as int,
            slug: self.slug@,
            name: self.name@,
            date: self.date,
            parent: match self.parent {
                Some(p) => Some(p as int),
                None => None,
            },
            text: self.text@,
            email: match self.email {
                Some(e) => Some(e@),
                None => None,
            },
            visible: self.visible,
        }
    }
}

impl View for CommentRecord {
    type V = RecordModel;

    open spec fn view(&self) -> RecordModel {
        self.model()
    }
}

impl DeepView for CommentRecord {
    type V = RecordModel;

    open spec fn deep_view(&self) -> RecordModel {
        self.model()
    }
}

impl Clone for CommentRecord {
    fn clone(&self) -> (copy: Self)
        ensures
            copy == *self,
    {
        CommentRecord {
            id: self.id,
            slug: self.slug.clone(),
            name: self.name.clone(),
            date: self.date,
            parent: self.parent,
            text: self.text.clone(),
            email: match &self.email {
                Some(e) => Some(e.clone()),
                None => None,
            },
            visible: self.visible,
        }
    }
}

} // verus!
