//! What the forest of a list of comment records is.
//!
//! A record hangs under the latest record before it that carries the
//! identifier it names as its parent. A record that names no parent is a
//! root. A record that names a parent which cannot be found that way, or
//! names itself, is an orphan, and the policy decides about it.

use vstd::multiset::Multiset;
use vstd::prelude::*;
use crate::node::NodeModel;
use crate::policy::OrphanPolicy;
use crate::positions::{lemma_positions_complete, lemma_positions_sound, positions};
use crate::record::RecordModel;

verus! {

/// The position of the latest of the first `upto` records whose identifier is `id`.
pub open spec fn latest_index_of(records: Seq<RecordModel>, id: int, upto: int) -> Option<int>
    decreases upto,
{
    if upto <= 0 {
        None
    } else if records[upto - 1].id == id {
        Some(upto - 1)
    } else {
        latest_index_of(records, id, upto - 1)
    }
}

/// The position of the record under which record `i` hangs, if there is one.
pub open spec fn parent_index(records: Seq<RecordModel>, i: int) -> Option<int> {
    match records[i].parent {
        None => None,
        Some(p) => if p == records[i].id {
            None
        } else {
            latest_index_of(records, p, i)
        },
    }
}

/// Record `i` names a parent under which it cannot hang.
pub open spec fn is_orphan(records: Seq<RecordModel>, i: int) -> bool {
    records[i].parent is Some && parent_index(records, i) is None
}

/// The position of the first orphan among the first `upto` records.
pub open spec fn first_orphan_among(records: Seq<RecordModel>, upto: int) -> Option<int>
    decreases upto,
{
    if upto <= 0 {
        None
    } else {
        match first_orphan_among(records, upto - 1) {
            Some(i) => Some(i),
            None => if is_orphan(records, upto - 1) {
                Some(upto - 1)
            } else {
                None
            },
        }
    }
}

/// The position of the first orphan among `records`.
pub open spec fn first_orphan(records: Seq<RecordModel>) -> Option<int> {
    first_orphan_among(records, records.len() as int)
}

/// Record `i` stands at the top level of the forest.
pub open spec fn is_root(records: Seq<RecordModel>, policy: OrphanPolicy, i: int) -> bool {
    records[i].parent is None || (policy is Promote && is_orphan(records, i))
}

/// For each record, the position of the record under which it hangs.
pub open spec fn links(records: Seq<RecordModel>) -> Seq<Option<int>> {
    Seq::new(records.len(), |i: int| parent_index(records, i))
}

/// For each record, whether it is a root.
pub open spec fn root_flags(records: Seq<RecordModel>, policy: OrphanPolicy) -> Seq<bool> {
    Seq::new(records.len(), |i: int| is_root(records, policy, i))
}

/// The positions of the records that hang under record `i`, in input order.
pub open spec fn children_of(records: Seq<RecordModel>, i: int) -> Seq<int> {
    positions(links(records), Some(i), i + 1, records.len() as int)
}

/// The positions of the roots, in input order.
pub open spec fn roots_of(records: Seq<RecordModel>, policy: OrphanPolicy) -> Seq<int> {
    positions(root_flags(records, policy), true, 0, records.len() as int)
}

/// The node for record `i`: its fields, and below it the nodes of the
/// records that hang under it.
pub open spec fn subtree(records: Seq<RecordModel>, i: int) -> NodeModel
    decreases records.len() - i,
{
    let kids = children_of(records, i);
    records[i].node(
        Seq::new(
            kids.len(),
            |k: int|
                if i < kids[k] < records.len() {
                    subtree(records, kids[k])
                } else {
                    arbitrary()
                },
        ),
    )
}

/// The nodes of the records at the positions `at`, in that order.
pub open spec fn nodes_at(records: Seq<RecordModel>, at: Seq<int>) -> Seq<NodeModel> {
    Seq::new(at.len(), |k: int| subtree(records, at[k]))
}

/// The forest of `records` under `policy`: the nodes of the roots, in input order.
pub open spec fn forest_of(records: Seq<RecordModel>, policy: OrphanPolicy) -> Seq<NodeModel> {
    nodes_at(records, roots_of(records, policy))
}

/// Record `i` is shown in the forest: it is a root, or hangs under a record
/// that is shown.
pub open spec fn is_kept(records: Seq<RecordModel>, policy: OrphanPolicy, i: int) -> bool
    decreases i,
{
    match parent_index(records, i) {
        Some(p) => 0 <= p < i && is_kept(records, policy, p),
        None => is_root(records, policy, i),
    }
}

/// The identifiers of those of the first `upto` records that are shown in
/// the forest, each as often as it occurs among them.
pub open spec fn kept_ids(records: Seq<RecordModel>, policy: OrphanPolicy, upto: int) -> Multiset<
    int,
>
    decreases upto,
{
    if upto <= 0 {
        Multiset::empty()
    } else if is_kept(records, policy, upto - 1) {
        kept_ids(records, policy, upto - 1).insert(records[upto - 1].id)
    } else {
        kept_ids(records, policy, upto - 1)
    }
}

/// The identifiers of `records`, each as often as it occurs.
pub open spec fn record_ids(records: Seq<RecordModel>) -> Multiset<int> {
    records.map_values(|r: RecordModel| r.id).to_multiset()
}

/// What `latest_index_of` finds is the last of the first `upto` records with
/// the identifier `id`; it finds nothing only where none of them has it.
pub proof fn lemma_latest_index_of(records: Seq<RecordModel>, id: int, upto: int)
    ensures
        match latest_index_of(records, id, upto) {
            Some(j) => {
                &&& 0 <= j < upto
                &&& records[j].id == id
                &&& forall|k: int| j < k < upto ==> records[k].id != id
            },
            None => forall|k: int| 0 <= k < upto ==> records[k].id != id,
        },
    decreases upto,
{
    if upto > 0 && records[upto - 1].id != id {
        lemma_latest_index_of(records, id, upto - 1);
    }
}

/// A record hangs under an earlier record, whose identifier is the parent it names.
pub proof fn lemma_parent_index(records: Seq<RecordModel>, i: int)
    requires
        parent_index(records, i) is Some,
    ensures
        0 <= parent_index(records, i).unwrap() < i,
        records[i].parent == Some(records[parent_index(records, i).unwrap()].id),
{
    lemma_latest_index_of(records, records[i].parent.unwrap(), i);
}

/// The first orphan among the first `upto` records is an orphan, and no
/// record before it is one; there is none only where none of them is an orphan.
pub proof fn lemma_first_orphan(records: Seq<RecordModel>, upto: int)
    ensures
        match first_orphan_among(records, upto) {
            Some(i) => {
                &&& 0 <= i < upto
                &&& is_orphan(records, i)
                &&& forall|k: int| 0 <= k < i ==> !is_orphan(records, k)
            },
            None => forall|k: int| 0 <= k < upto ==> !is_orphan(records, k),
        },
    decreases upto,
{
    if upto > 0 {
        lemma_first_orphan(records, upto - 1);
    }
}

/// Once an orphan has been met, it stays the first one however far the search goes on.
pub proof fn lemma_first_orphan_stays(records: Seq<RecordModel>, from: int, upto: int)
    requires
        from <= upto,
        first_orphan_among(records, from) is Some,
    ensures
        first_orphan_among(records, upto) == first_orphan_among(records, from),
    decreases upto - from,
{
    if from < upto {
        lemma_first_orphan_stays(records, from, upto - 1);
    }
}

/// The children of record `i` are the records that hang under it, all of
/// them; they come after it, and are listed in input order.
pub proof fn lemma_children_of(records: Seq<RecordModel>, i: int)
    requires
        0 <= i,
    ensures
        forall|k: int|
            0 <= k < children_of(records, i).len() ==> {
                let c = #[trigger] children_of(records, i)[k];
                i < c < records.len() && parent_index(records, c) == Some(i)
            },
        forall|j: int, k: int|
            0 <= j < k < children_of(records, i).len() ==> children_of(records, i)[j]
                < children_of(records, i)[k],
        forall|c: int|
            0 <= c < records.len() && parent_index(records, c) == Some(i) ==> children_of(
                records,
                i,
            ).contains(c),
{
    lemma_positions_sound(links(records), Some(i), i + 1, records.len() as int);
    assert forall|c: int|
        0 <= c < records.len() && parent_index(records, c) == Some(i) implies children_of(
        records,
        i,
    ).contains(c) by {
        lemma_parent_index(records, c);
        lemma_positions_complete(links(records), Some(i), i + 1, records.len() as int, c);
    }
}

/// The node of record `i` has the record's fields, and as children the nodes
/// of the records that hang under it.
pub proof fn lemma_subtree(records: Seq<RecordModel>, i: int)
    requires
        0 <= i,
    ensures
        subtree(records, i) == records[i].node(nodes_at(records, children_of(records, i))),
{
    lemma_children_of(records, i);
    assert(subtree(records, i).children =~= nodes_at(records, children_of(records, i)));
}

} // verus!
