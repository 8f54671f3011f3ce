//! Laws of the forest: what holds of `forest_of` for every input.

use vstd::multiset::Multiset;
use vstd::prelude::*;
use crate::forest::{
    children_of, forest_of, is_kept, is_orphan, is_root, kept_ids, lemma_children_of,
    lemma_parent_index, lemma_subtree, links, nodes_at, parent_index, record_ids, root_flags,
    roots_of, subtree,
};
use crate::node::{forest_ids, node_ids, NodeModel};
use crate::policy::OrphanPolicy;
use crate::positions::{
    lemma_positions_agree, lemma_positions_all, lemma_positions_complete, lemma_positions_first,
    lemma_positions_none, lemma_positions_sound, positions,
};
use crate::record::RecordModel;

verus! {

/// The identifiers in a forest that got one more tree are those it had
/// before and those of the new tree.
pub proof fn lemma_forest_ids_push(forest: Seq<NodeModel>, node: NodeModel)
    ensures
        forest_ids(forest.push(node)) == forest_ids(forest).add(node_ids(node)),
{
    assert(forest.push(node).drop_last() =~= forest);
}

/// The identifiers in the nodes at `at` and at one more position `i`.
proof fn lemma_ids_at_push(records: Seq<RecordModel>, at: Seq<int>, i: int)
    ensures
        forest_ids(nodes_at(records, at.push(i))) == forest_ids(nodes_at(records, at)).add(
            node_ids(subtree(records, i)),
        ),
{
    assert(nodes_at(records, at.push(i)) =~= nodes_at(records, at).push(subtree(records, i)));
    lemma_forest_ids_push(nodes_at(records, at), subtree(records, i));
}

/// Where, in `lo..hi`, the positions of `vc` in `sc` are those of `va` in
/// `sa` and those of `vb` in `sb`, and no position is of both kinds, the
/// nodes at the former hold the identifiers of the nodes at the latter two.
proof fn lemma_ids_merge<A, B, C>(
    records: Seq<RecordModel>,
    sa: Seq<A>,
    va: A,
    sb: Seq<B>,
    vb: B,
    sc: Seq<C>,
    vc: C,
    lo: int,
    hi: int,
)
    requires
        forall|k: int| lo <= k < hi ==> ((sc[k] == vc) <==> (sa[k] == va || sb[k] == vb)),
        forall|k: int| lo <= k < hi ==> !(sa[k] == va && sb[k] == vb),
    ensures
        forest_ids(nodes_at(records, positions(sc, vc, lo, hi))) == forest_ids(
            nodes_at(records, positions(sa, va, lo, hi)),
        ).add(forest_ids(nodes_at(records, positions(sb, vb, lo, hi)))),
    decreases hi - lo,
{
    if lo < hi {
        lemma_ids_merge(records, sa, va, sb, vb, sc, vc, lo, hi - 1);
        let pa = positions(sa, va, lo, hi - 1);
        let pb = positions(sb, vb, lo, hi - 1);
        let pc = positions(sc, vc, lo, hi - 1);
        if sa[hi - 1] == va {
            lemma_ids_at_push(records, pa, hi - 1);
            lemma_ids_at_push(records, pc, hi - 1);
            assert(forest_ids(nodes_at(records, pc.push(hi - 1))) =~= forest_ids(
                nodes_at(records, pa.push(hi - 1)),
            ).add(forest_ids(nodes_at(records, pb))));
        } else if sb[hi - 1] == vb {
            lemma_ids_at_push(records, pb, hi - 1);
            lemma_ids_at_push(records, pc, hi - 1);
            assert(forest_ids(nodes_at(records, pc.push(hi - 1))) =~= forest_ids(
                nodes_at(records, pa),
            ).add(forest_ids(nodes_at(records, pb.push(hi - 1)))));
        }
    } else {
        assert(forest_ids(nodes_at(records, Seq::<int>::empty())) =~= Multiset::empty().add(
            Multiset::empty(),
        ));
    }
}

/// For each record, whether it is shown in the forest and hangs under no
/// record at or after position `lo`.
spec fn open_flags(records: Seq<RecordModel>, policy: OrphanPolicy, lo: int) -> Seq<bool> {
    Seq::new(
        records.len(),
        |j: int|
            is_kept(records, policy, j) && match parent_index(records, j) {
                Some(p) => p < lo,
                None => true,
            },
    )
}

/// The nodes of the shown records from `lo` on that hang under no record
/// from `lo` on hold, together, the identifiers of all shown records from `lo` on.
proof fn lemma_open_ids(records: Seq<RecordModel>, policy: OrphanPolicy, lo: int)
    requires
        0 <= lo <= records.len(),
    ensures
        forest_ids(
            nodes_at(
                records,
                positions(open_flags(records, policy, lo), true, lo, records.len() as int),
            ),
        ).add(kept_ids(records, policy, lo)) == kept_ids(records, policy, records.len() as int),
    decreases records.len() - lo,
{
    let n = records.len() as int;
    let here = open_flags(records, policy, lo);
    if lo == n {
        assert(nodes_at(records, positions(here, true, lo, n)) =~= Seq::<NodeModel>::empty());
        assert(Multiset::<int>::empty().add(kept_ids(records, policy, lo)) =~= kept_ids(
            records,
            policy,
            n,
        ));
    } else {
        let next = open_flags(records, policy, lo + 1);
        let rest_here = positions(here, true, lo + 1, n);
        let rest_next = positions(next, true, lo + 1, n);
        lemma_open_ids(records, policy, lo + 1);
        lemma_positions_first(here, true, lo, n);
        assert(here[lo] == is_kept(records, policy, lo)) by {
            if parent_index(records, lo) is Some {
                lemma_parent_index(records, lo);
            }
        }
        if is_kept(records, policy, lo) {
            assert forall|k: int| lo + 1 <= k < n implies ((next[k] == true) <==> (here[k] == true
                || links(records)[k] == Some(lo))) && !(here[k] == true && links(records)[k]
                == Some(lo)) by {}
            lemma_ids_merge(
                records,
                here,
                true,
                links(records),
                Some(lo),
                next,
                true,
                lo + 1,
                n,
            );
            lemma_subtree(records, lo);
            assert(nodes_at(records, seq![lo] + rest_here) =~= nodes_at(records, seq![lo])
                + nodes_at(records, rest_here));
            lemma_forest_ids_concat(nodes_at(records, seq![lo]), nodes_at(records, rest_here));
            lemma_ids_at_push(records, Seq::<int>::empty(), lo);
            assert(Seq::<int>::empty().push(lo) =~= seq![lo]);
            assert(nodes_at(records, Seq::<int>::empty()) =~= Seq::<NodeModel>::empty());
            assert(forest_ids(nodes_at(records, positions(here, true, lo, n))).add(
                kept_ids(records, policy, lo),
            ) =~= forest_ids(nodes_at(records, rest_next)).add(
                kept_ids(records, policy, lo + 1),
            ));
        } else {
            assert forall|k: int| lo + 1 <= k < n implies here[k] == next[k] by {}
            lemma_positions_agree(here, next, true, lo + 1, n);
        }
    }
}

/// The identifiers in two forests put one after the other.
pub proof fn lemma_forest_ids_concat(first: Seq<NodeModel>, second: Seq<NodeModel>)
    ensures
        forest_ids(first + second) == forest_ids(first).add(forest_ids(second)),
    decreases second.len(),
{
    if second.len() == 0 {
        assert(first + second =~= first);
        assert(forest_ids(first).add(Multiset::empty()) =~= forest_ids(first));
    } else {
        lemma_forest_ids_concat(first, second.drop_last());
        assert((first + second).drop_last() =~= first + second.drop_last());
        assert(forest_ids(first + second) =~= forest_ids(first).add(forest_ids(second)));
    }
}

/// The forest shows exactly the records that are kept: the identifiers of
/// its nodes, at every depth, are the identifiers of the kept records, each
/// as often as it occurs among them. Nothing is made up, and nothing but
/// what the policy leaves out is missing.
pub proof fn lemma_forest_shows_kept_records(records: Seq<RecordModel>, policy: OrphanPolicy)
    ensures
        forest_ids(forest_of(records, policy)) == kept_ids(
            records,
            policy,
            records.len() as int,
        ),
{
    let n = records.len() as int;
    lemma_open_ids(records, policy, 0);
    assert forall|k: int| 0 <= k < n implies open_flags(records, policy, 0)[k] == root_flags(
        records,
        policy,
    )[k] by {
        if parent_index(records, k) is Some {
            lemma_parent_index(records, k);
        }
    }
    lemma_positions_agree(open_flags(records, policy, 0), root_flags(records, policy), true, 0, n);
    assert(forest_ids(forest_of(records, policy)).add(Multiset::empty()) =~= forest_ids(
        forest_of(records, policy),
    ));
}

/// With orphans promoted, every record is kept.
pub proof fn lemma_promote_keeps_all(records: Seq<RecordModel>, i: int)
    requires
        0 <= i,
    ensures
        is_kept(records, OrphanPolicy::Promote, i),
    decreases i,
{
    if parent_index(records, i) is Some {
        lemma_parent_index(records, i);
        lemma_promote_keeps_all(records, parent_index(records, i).unwrap());
    }
}

/// Where every one of the first `upto` records is kept, the kept identifiers
/// among them are all their identifiers.
proof fn lemma_kept_ids_all(records: Seq<RecordModel>, policy: OrphanPolicy, upto: int)
    requires
        0 <= upto <= records.len(),
        forall|i: int| 0 <= i < upto ==> is_kept(records, policy, i),
    ensures
        kept_ids(records, policy, upto) == record_ids(records.take(upto)),
    decreases upto,
{
    let id_of = |r: RecordModel| r.id;
    if upto == 0 {
        assert(records.take(0).map_values(id_of) =~= Seq::<int>::empty());
        Seq::<int>::empty().to_multiset_ensures();
        assert(Seq::<int>::empty().to_multiset().len() == 0);
        assert(record_ids(records.take(0)) =~= Multiset::<int>::empty());
    } else {
        lemma_kept_ids_all(records, policy, upto - 1);
        let before = records.take(upto - 1).map_values(id_of);
        assert(records.take(upto).map_values(id_of) =~= before.push(records[upto - 1].id));
        vstd::seq_lib::to_multiset_build(before, records[upto - 1].id);
    }
}

/// With orphans promoted, no record is dropped and none is made up: the
/// identifiers of the nodes of the forest, at every depth, are the
/// identifiers of the records, each as often as it occurs in the input.
pub proof fn lemma_promote_shows_every_record(records: Seq<RecordModel>)
    ensures
        forest_ids(forest_of(records, OrphanPolicy::Promote)) == record_ids(records),
{
    lemma_forest_shows_kept_records(records, OrphanPolicy::Promote);
    assert forall|i: int| 0 <= i < records.len() implies is_kept(
        records,
        OrphanPolicy::Promote,
        i,
    ) by {
        lemma_promote_keeps_all(records, i);
    }
    lemma_kept_ids_all(records, OrphanPolicy::Promote, records.len() as int);
    assert(records.take(records.len() as int) =~= records);
}

/// Where the input has no orphan, the policy makes no difference, and the
/// forest shows every record.
pub proof fn lemma_forest_without_orphans(records: Seq<RecordModel>, policy: OrphanPolicy)
    requires
        forall|i: int| 0 <= i < records.len() ==> !is_orphan(records, i),
    ensures
        forest_of(records, policy) == forest_of(records, OrphanPolicy::Promote),
        forest_ids(forest_of(records, policy)) == record_ids(records),
{
    lemma_positions_agree(
        root_flags(records, policy),
        root_flags(records, OrphanPolicy::Promote),
        true,
        0,
        records.len() as int,
    );
    lemma_promote_shows_every_record(records);
}

/// An identifier among the kept ones belongs to a kept record.
proof fn lemma_kept_id_has_record(
    records: Seq<RecordModel>,
    policy: OrphanPolicy,
    upto: int,
    id: int,
)
    requires
        kept_ids(records, policy, upto).count(id) > 0,
    ensures
        exists|j: int| 0 <= j < upto && is_kept(records, policy, j) && records[j].id == id,
    decreases upto,
{
    if upto > 0 {
        if is_kept(records, policy, upto - 1) && records[upto - 1].id == id {
        } else {
            lemma_kept_id_has_record(records, policy, upto - 1, id);
        }
    }
}

/// The forest makes nothing up, whatever the policy: the identifier of each
/// of its nodes, at every depth, is the identifier of a record.
pub proof fn lemma_forest_ids_are_record_ids(
    records: Seq<RecordModel>,
    policy: OrphanPolicy,
    id: int,
)
    requires
        forest_ids(forest_of(records, policy)).count(id) > 0,
    ensures
        exists|j: int| 0 <= j < records.len() && records[j].id == id,
{
    lemma_forest_shows_kept_records(records, policy);
    lemma_kept_id_has_record(records, policy, records.len() as int, id);
}

/// Under the policy that drops orphans, an orphan is missing from the
/// forest: where no other record shares its identifier, no node has it.
pub proof fn lemma_drop_leaves_out_orphans(records: Seq<RecordModel>, i: int)
    requires
        0 <= i < records.len(),
        is_orphan(records, i),
        forall|j: int| 0 <= j < records.len() && j != i ==> records[j].id != records[i].id,
    ensures
        forest_ids(forest_of(records, OrphanPolicy::Drop)).count(records[i].id) == 0,
{
    lemma_forest_shows_kept_records(records, OrphanPolicy::Drop);
    if kept_ids(records, OrphanPolicy::Drop, records.len() as int).count(records[i].id) > 0 {
        lemma_kept_id_has_record(
            records,
            OrphanPolicy::Drop,
            records.len() as int,
            records[i].id,
        );
    }
}

/// Where no record names a parent, every record becomes a root without
/// children, and the forest keeps the order of the input.
pub proof fn lemma_forest_of_parentless(records: Seq<RecordModel>, policy: OrphanPolicy)
    requires
        forall|i: int| 0 <= i < records.len() ==> records[i].parent is None,
    ensures
        forest_of(records, policy) == records.map_values(
            |r: RecordModel| r.node(Seq::<NodeModel>::empty()),
        ),
{
    let n = records.len() as int;
    lemma_positions_all(root_flags(records, policy), true, 0, n);
    assert forall|i: int| 0 <= i < n implies #[trigger] subtree(records, i) == records[i].node(
        Seq::<NodeModel>::empty(),
    ) by {
        lemma_positions_none(links(records), Some(i), i + 1, n);
        lemma_subtree(records, i);
        assert(nodes_at(records, children_of(records, i)) =~= Seq::<NodeModel>::empty());
    }
    assert(forest_of(records, policy) =~= records.map_values(
        |r: RecordModel| r.node(Seq::<NodeModel>::empty()),
    ));
}

/// Children keep the order of the input: of two records that hang under the
/// same record, the node of the earlier one stands before the node of the
/// later one among that record's children.
pub proof fn lemma_children_keep_input_order(records: Seq<RecordModel>, p: int, a: int, b: int)
    requires
        0 <= a < b < records.len(),
        parent_index(records, a) == Some(p),
        parent_index(records, b) == Some(p),
    ensures
        exists|j: int, k: int|
            0 <= j < k < subtree(records, p).children.len() && subtree(records, p).children[j]
                == subtree(records, a) && subtree(records, p).children[k] == subtree(records, b),
{
    let n = records.len() as int;
    lemma_parent_index(records, a);
    lemma_subtree(records, p);
    lemma_children_of(records, p);
    lemma_positions_complete(links(records), Some(p), p + 1, n, a);
    lemma_positions_complete(links(records), Some(p), p + 1, n, b);
    let kids = children_of(records, p);
    let j = choose|j: int| 0 <= j < kids.len() && kids[j] == a;
    let k = choose|k: int| 0 <= k < kids.len() && kids[k] == b;
    if j >= k {
        if j > k {
            assert(kids[k] < kids[j]);
        }
        assert(false);
    }
    assert(subtree(records, p).children[j] == subtree(records, a));
    assert(subtree(records, p).children[k] == subtree(records, b));
}

/// Roots keep the order of the input: of two roots, the node of the earlier
/// record stands before the node of the later one in the forest.
pub proof fn lemma_roots_keep_input_order(
    records: Seq<RecordModel>,
    policy: OrphanPolicy,
    a: int,
    b: int,
)
    requires
        0 <= a < b < records.len(),
        is_root(records, policy, a),
        is_root(records, policy, b),
    ensures
        exists|j: int, k: int|
            0 <= j < k < forest_of(records, policy).len() && forest_of(records, policy)[j]
                == subtree(records, a) && forest_of(records, policy)[k] == subtree(records, b),
{
    let n = records.len() as int;
    lemma_positions_sound(root_flags(records, policy), true, 0, n);
    lemma_positions_complete(root_flags(records, policy), true, 0, n, a);
    lemma_positions_complete(root_flags(records, policy), true, 0, n, b);
    let roots = roots_of(records, policy);
    let j = choose|j: int| 0 <= j < roots.len() && roots[j] == a;
    let k = choose|k: int| 0 <= k < roots.len() && roots[k] == b;
    if j >= k {
        if j > k {
            assert(roots[k] < roots[j]);
        }
        assert(false);
    }
    assert(forest_of(records, policy)[j] == subtree(records, a));
    assert(forest_of(records, policy)[k] == subtree(records, b));
}

} // verus!
