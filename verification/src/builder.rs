//! Building the forest.
//!
//! One pass forward over the records resolves, through a map from identifier
//! to position, the record under which each one hangs. One pass backward
//! turns the records into nodes: when a record's turn comes, every record
//! that hangs under it has already become a node and waits for it.

use std::collections::HashMap;
use vstd::prelude::*;
use crate::forest::{
    children_of, first_orphan, first_orphan_among, forest_of, kept_ids, latest_index_of,
    lemma_first_orphan, lemma_first_orphan_stays, lemma_latest_index_of, lemma_parent_index,
    lemma_subtree, links, parent_index, record_ids, root_flags, roots_of, subtree,
};
use crate::laws::{
    lemma_forest_of_parentless, lemma_forest_shows_kept_records, lemma_forest_without_orphans,
    lemma_promote_shows_every_record,
};
use crate::node::{forest_ids, CommentNode, NodeModel};
use crate::policy::{OrphanPolicy, TreeError};
use crate::positions::{lemma_positions_first, positions};
use crate::record::{CommentRecord, RecordModel};

verus! {

/// The positions in `found` as mathematical integers.
pub open spec fn as_links(found: Seq<Option<usize>>) -> Seq<Option<int>> {
    Seq::new(
        found.len(),
        |i: int|
            match found[i] {
                Some(p) => Some(p as int),
                None => None,
            },
    )
}

/// For each record, the position of the record under which it hangs: the
/// latest earlier record that carries the identifier it names as its parent.
/// `None` stands for a record that names no parent, and for an orphan.
pub fn parent_indices(records: &Vec<CommentRecord>) -> (found: Vec<Option<usize>>)
    ensures
        as_links(found@) == links(records.deep_view()),
{
    broadcast use vstd::std_specs::hash::group_hash_axioms;

    let ghost rs = records.deep_view();
    let mut seen: HashMap<i32, usize> = HashMap::new();
    let mut found: Vec<Option<usize>> = Vec::new();
    let mut i: usize = 0;
    while i < records.len()
        invariant
            rs == records.deep_view(),
            i <= records@.len(),
            found@.len() == i,
            forall|id: i32|
                seen@.contains_key(id) <==> (#[trigger] latest_index_of(rs, id as int, i as int))
                    is Some,
            forall|id: i32|
                seen@.contains_key(id) ==> #[trigger] latest_index_of(rs, id as int, i as int)
                    == Some(seen@[id] as int),
            forall|k: int| 0 <= k < i ==> #[trigger] as_links(found@)[k] == parent_index(rs, k),
        decreases records@.len() - i,
    {
        let record = &records[i];
        assert(rs[i as int] == record@);
        assert forall|id: i32| #[trigger]
            latest_index_of(rs, id as int, i as int + 1) == if id == record.id {
                Some(i as int)
            } else {
                latest_index_of(rs, id as int, i as int)
            } by {}
        seen.insert(record.id, i);
        let link = match record.parent {
            None => None,
            Some(p) => match seen.get(&p) {
                Some(j) => {
                    if *j != i {
                        Some(*j)
                    } else {
                        assert(p == record.id) by {
                            lemma_latest_index_of(rs, p as int, i as int);
                        }
                        None
                    }
                },
                None => None,
            },
        };
        let ghost before = found@;
        found.push(link);
        assert forall|k: int| 0 <= k < i + 1 implies #[trigger] as_links(found@)[k]
            == parent_index(rs, k) by {
            if k < i {
                assert(as_links(before)[k] == parent_index(rs, k));
            }
        }
        i += 1;
    }
    assert(as_links(found@) =~= links(rs));
    found
}

/// The position of the first orphan among `records`, if there is one.
/// `found` holds the parent positions of `records`.
fn first_orphan_index(records: &Vec<CommentRecord>, found: &Vec<Option<usize>>) -> (first:
    Option<usize>)
    requires
        as_links(found@) == links(records.deep_view()),
    ensures
        match first {
            Some(i) => first_orphan(records.deep_view()) == Some(i as int),
            None => first_orphan(records.deep_view()) is None,
        },
{
    let ghost rs = records.deep_view();
    assert(found@.len() == records@.len()) by {
        assert(as_links(found@).len() == links(rs).len());
    }
    let mut i: usize = 0;
    while i < records.len()
        invariant
            rs == records.deep_view(),
            as_links(found@) == links(rs),
            found@.len() == records@.len(),
            i <= records@.len(),
            first_orphan_among(rs, i as int) is None,
        decreases records@.len() - i,
    {
        assert(as_links(found@)[i as int] == parent_index(rs, i as int));
        assert(rs[i as int] == records@[i as int]@);
        if records[i].parent.is_some() && found[i].is_none() {
            proof {
                lemma_first_orphan_stays(rs, i as int + 1, rs.len() as int);
            }
            return Some(i);
        }
        i += 1;
    }
    None
}

/// `nodes` holds the nodes of the records at `at`, the last position first.
spec fn mirrors(nodes: Seq<CommentNode>, records: Seq<RecordModel>, at: Seq<int>) -> bool {
    &&& nodes.len() == at.len()
    &&& forall|k: int|
        0 <= k < nodes.len() ==> (#[trigger] nodes[k])@ == subtree(records, at[at.len() - 1 - k])
}

/// The forest of `records` under `policy`, given the parent positions of the
/// records in `found`.
fn assemble(records: Vec<CommentRecord>, found: &Vec<Option<usize>>, policy: OrphanPolicy) -> (forest:
    Vec<CommentNode>)
    requires
        as_links(found@) == links(records.deep_view()),
    ensures
        forest.deep_view() == forest_of(records.deep_view(), policy),
{
    let ghost rs = records.deep_view();
    let ghost n = rs.len() as int;
    assert(found@.len() == n) by {
        assert(as_links(found@).len() == links(rs).len());
    }
    let mut records = records;
    let mut pending: Vec<Vec<CommentNode>> = Vec::new();
    while pending.len() < records.len()
        invariant
            pending@.len() <= records@.len(),
            forall|p: int| 0 <= p < pending@.len() ==> (#[trigger] pending@[p])@.len() == 0,
        decreases records@.len() - pending@.len(),
    {
        pending.push(Vec::new());
    }
    let mut tops: Vec<CommentNode> = Vec::new();
    let mut i: usize = records.len();
    while i > 0
        invariant
            n == rs.len(),
            as_links(found@) == links(rs),
            found@.len() == n,
            i <= n,
            records@.len() == i,
            pending@.len() == i,
            forall|k: int| 0 <= k < i ==> (#[trigger] records@[k])@ == rs[k],
            forall|p: int|
                0 <= p < i ==> mirrors(
                    (#[trigger] pending@[p])@,
                    rs,
                    positions(links(rs), Some(p), i as int, n),
                ),
            mirrors(tops@, rs, positions(root_flags(rs, policy), true, i as int, n)),
        decreases i,
    {
        i -= 1;
        let ghost at = i as int;
        let record = records.pop().unwrap();
        let mut kids = pending.pop().unwrap();
        let named_parent = record.parent.is_some();
        assert(record@ == rs[at]);
        assert(as_links(found@)[at] == parent_index(rs, at));
        let mut node = CommentNode::new(record);
        proof {
            lemma_subtree(rs, at);
        }
        while kids.len() > 0
            invariant
                0 <= at < n,
                node@ == rs[at].node(node@.children),
                node@.children.len() + kids@.len() == children_of(rs, at).len(),
                forall|k: int|
                    0 <= k < node@.children.len() ==> #[trigger] node@.children[k] == subtree(
                        rs,
                        children_of(rs, at)[k],
                    ),
                forall|k: int|
                    0 <= k < kids@.len() ==> (#[trigger] kids@[k])@ == subtree(
                        rs,
                        children_of(rs, at)[children_of(rs, at).len() - 1 - k],
                    ),
            decreases kids@.len(),
        {
            let kid = kids.pop().unwrap();
            node.add_child(kid);
        }
        assert(node@.children =~= subtree(rs, at).children);
        assert(node@ == subtree(rs, at));
        proof {
            lemma_positions_first(root_flags(rs, policy), true, at, n);
            assert forall|p: int| 0 <= p < at implies #[trigger] positions(
                links(rs),
                Some(p),
                at,
                n,
            ) == if parent_index(rs, at) == Some(p) {
                seq![at] + positions(links(rs), Some(p), at + 1, n)
            } else {
                positions(links(rs), Some(p), at + 1, n)
            } by {
                lemma_positions_first(links(rs), Some(p), at, n);
            }
        }
        match found[i] {
            Some(p) => {
                proof {
                    lemma_parent_index(rs, at);
                }
                let ghost before = pending@;
                pending[p].push(node);
                assert forall|q: int| 0 <= q < at implies mirrors(
                    (#[trigger] pending@[q])@,
                    rs,
                    positions(links(rs), Some(q), at, n),
                ) by {
                    assert(mirrors(before[q]@, rs, positions(links(rs), Some(q), at + 1, n)));
                }
            },
            None => {
                let promoted = match policy {
                    OrphanPolicy::Promote => true,
                    _ => false,
                };
                if !named_parent || promoted {
                    tops.push(node);
                }
            },
        }
    }
    let mut forest: Vec<CommentNode> = Vec::new();
    while tops.len() > 0
        invariant
            forest@.len() + tops@.len() == roots_of(rs, policy).len(),
            forall|k: int|
                0 <= k < forest@.len() ==> (#[trigger] forest@[k])@ == subtree(
                    rs,
                    roots_of(rs, policy)[k],
                ),
            forall|k: int|
                0 <= k < tops@.len() ==> (#[trigger] tops@[k])@ == subtree(
                    rs,
                    roots_of(rs, policy)[roots_of(rs, policy).len() - 1 - k],
                ),
        decreases tops@.len(),
    {
        let top = tops.pop().unwrap();
        forest.push(top);
    }
    assert(forest.deep_view() =~= forest_of(rs, policy));
    forest
}

/// Builds the forest of `records`, with every orphan promoted to a root.
///
/// A record becomes a child of the latest earlier record that carries the
/// identifier it names as its parent. A record that names no parent becomes a
/// root. So does an orphan: a record whose parent is not among the earlier
/// records, or that names itself. Roots and children keep the order of the
/// input.
///
/// No record is dropped and none is made up: the forest holds one node for
/// each record. Where no record names a parent, the forest is the input, each
/// record a node without children.
pub fn build_tree(records: Vec<CommentRecord>) -> (forest: Vec<CommentNode>)
    ensures
        forest.deep_view() == forest_of(records.deep_view(), OrphanPolicy::Promote),
        forest_ids(forest.deep_view()) == record_ids(records.deep_view()),
        (forall|i: int| 0 <= i < records@.len() ==> (#[trigger] records@[i]).parent is None)
            ==> forest.deep_view() == records.deep_view().map_values(
            |r: RecordModel| r.node(Seq::<NodeModel>::empty()),
        ),
{
    proof {
        let rs = records.deep_view();
        lemma_promote_shows_every_record(rs);
        if forall|i: int| 0 <= i < records@.len() ==> (#[trigger] records@[i]).parent is None {
            assert forall|i: int| 0 <= i < rs.len() implies rs[i].parent is None by {
                assert(records@[i].parent is None);
            }
            lemma_forest_of_parentless(rs, OrphanPolicy::Promote);
        }
    }
    let found = parent_indices(&records);
    assemble(records, &found, OrphanPolicy::Promote)
}

/// Builds the forest of `records`, treating orphans as `policy` says.
///
/// Under [`OrphanPolicy::Fail`] the first orphan in the input is reported and
/// no forest is built. Under the other policies the call always succeeds, and
/// the forest holds one node for each record that is a root or hangs, through
/// its parents, under a root. With orphans promoted, or without orphans, that
/// is every record.
pub fn build_tree_with_policy(records: Vec<CommentRecord>, policy: OrphanPolicy) -> (result: Result<
    Vec<CommentNode>,
    TreeError,
>)
    ensures
        match result {
            Ok(forest) => {
                &&& policy is Fail ==> first_orphan(records.deep_view()) is None
                &&& forest.deep_view() == forest_of(records.deep_view(), policy)
                &&& forest_ids(forest.deep_view()) == kept_ids(
                    records.deep_view(),
                    policy,
                    records.deep_view().len() as int,
                )
                &&& policy is Promote || first_orphan(records.deep_view()) is None
                    ==> forest_ids(forest.deep_view()) == record_ids(records.deep_view())
            },
            Err(TreeError::MissingParent { id, parent }) => {
                &&& policy is Fail
                &&& first_orphan(records.deep_view()) matches Some(i)
                &&& records.deep_view()[i].id == id
                &&& records.deep_view()[i].parent == Some(parent as int)
            },
        },
{
    let found = parent_indices(&records);
    if let OrphanPolicy::Fail = policy {
        if let Some(i) = first_orphan_index(&records, &found) {
            proof {
                lemma_first_orphan(records.deep_view(), records.deep_view().len() as int);
            }
            let record = &records[i];
            assert(record@ == records.deep_view()[i as int]);
            return Err(TreeError::MissingParent { id: record.id, parent: record.parent.unwrap() });
        }
    }
    proof {
        let rs = records.deep_view();
        lemma_forest_shows_kept_records(rs, policy);
        lemma_promote_shows_every_record(rs);
        if first_orphan(rs) is None {
            lemma_first_orphan(rs, rs.len() as int);
            lemma_forest_without_orphans(rs, policy);
        }
    }
    Ok(assemble(records, &found, policy))
}

/// Building is repeatable: two calls of `build_tree` on equal inputs return
/// forests of the same shape, with the same nodes in the same order.
pub proof fn lemma_build_tree_repeatable(
    records: Vec<CommentRecord>,
    again: Vec<CommentRecord>,
    first: Vec<CommentNode>,
    second: Vec<CommentNode>,
)
    requires
        records.deep_view() == again.deep_view(),
        call_ensures(build_tree, (records,), first),
        call_ensures(build_tree, (again,), second),
    ensures
        first.deep_view() == second.deep_view(),
{
}

/// Building under a policy is repeatable: two calls of
/// `build_tree_with_policy` on equal inputs under the same policy both
/// succeed, with forests of the same shape, or both fail with the same error.
pub proof fn lemma_build_tree_with_policy_repeatable(
    records: Vec<CommentRecord>,
    again: Vec<CommentRecord>,
    policy: OrphanPolicy,
    first: Result<Vec<CommentNode>, TreeError>,
    second: Result<Vec<CommentNode>, TreeError>,
)
    requires
        records.deep_view() == again.deep_view(),
        call_ensures(build_tree_with_policy, (records, policy), first),
        call_ensures(build_tree_with_policy, (again, policy), second),
    ensures
        match (first, second) {
            (Ok(a), Ok(b)) => a.deep_view() == b.deep_view(),
            (Err(a), Err(b)) => a == b,
            _ => false,
        },
{
}

/// Filtering one element more keeps what was kept, and the new element where
/// it passes.
proof fn lemma_filter_next<A>(s: Seq<A>, pred: spec_fn(A) -> bool, k: int)
    requires
        0 <= k < s.len(),
    ensures
        s.take(k + 1).filter(pred) == if pred(s[k]) {
            s.take(k).filter(pred).push(s[k])
        } else {
            s.take(k).filter(pred)
        },
{
    reveal(Seq::filter);
    assert(s.take(k + 1).drop_last() =~= s.take(k));
}

/// The records that are visible, in the order of the input: those that wait
/// in the moderation queue are left out.
///
/// `build_tree` shows every record it is given, visible or not. Where hidden
/// comments are to stay out of the forest, they are taken out first; a reply
/// to one of them is then an orphan.
pub fn visible_only(records: Vec<CommentRecord>) -> (shown: Vec<CommentRecord>)
    ensures
        shown.deep_view() == records.deep_view().filter(|r: RecordModel| r.visible),
{
    let ghost visible = |r: RecordModel| r.visible;
    let ghost rs = records.deep_view();
    let mut shown: Vec<CommentRecord> = Vec::new();
    assert(shown.deep_view() =~= rs.take(0).filter(visible)) by {
        reveal(Seq::filter);
    }
    for record in it: records
        invariant
            it.seq().len() == rs.len(),
            forall|k: int| 0 <= k < rs.len() ==> (#[trigger] it.seq()[k])@ == rs[k],
            forall|r: RecordModel| #[trigger] visible(r) == r.visible,
            shown.deep_view() == rs.take(it.index() as int).filter(visible),
    {
        let ghost k = it.index() as int;
        let ghost before = shown.deep_view();
        proof {
            lemma_filter_next(rs, visible, k);
        }
        if record.visible {
            shown.push(record);
            assert(shown.deep_view() =~= before.push(rs[k]));
        }
    }
    assert(rs.take(rs.len() as int) =~= rs);
    shown
}

} // verus!
