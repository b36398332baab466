use vstd::prelude::*;

use crate::moves::{destinations_of, parent_among, plan_of, select, Action};
use crate::path::{has_parent, is_prefix, lemma_reroot_keeps_suffix, splice_of, Part};

verus! {

/// A directory and every ancestor of it, the root included.
pub open spec fn with_ancestors(d: Seq<Part>) -> Set<Seq<Part>> {
    Set::new(|q: Seq<Part>| q.len() > 0 && is_prefix(q, d))
}

/// The paths that exist after `acts` is carried out on a file system where
/// the paths of `fs` exist: creating a directory brings it and its
/// ancestors into existence, renaming a file takes its old path away and
/// gives it the new one.
pub open spec fn apply(fs: Set<Seq<Part>>, acts: Seq<Action>) -> Set<Seq<Part>>
    decreases acts.len(),
{
    if acts.len() == 0 {
        fs
    } else {
        let before = apply(fs, acts.drop_last());
        match acts.last() {
            Action::CreateDir(d) => before.union(with_ancestors(d)),
            Action::Rename(a, b) => before.remove(a).insert(b),
        }
    }
}

proof fn lemma_apply_append(fs: Set<Seq<Part>>, a: Seq<Action>, b: Seq<Action>)
    ensures
        apply(fs, a + b) == apply(apply(fs, a), b),
    decreases b.len(),
{
    if b.len() == 0 {
        assert(a + b =~= a);
    } else {
        assert((a + b).drop_last() =~= a + b.drop_last());
        assert((a + b).last() == b.last());
        lemma_apply_append(fs, a, b.drop_last());
    }
}

/// No source is a destination or an ancestor of one.
pub open spec fn moves_apart(es: Seq<(Seq<Part>, Seq<Part>)>) -> bool {
    forall|i: int, j: int|
        0 <= i < es.len() && 0 <= j < es.len() ==> !is_prefix(#[trigger] es[i].0, #[trigger] es[j].1)
}

/// The move phase does what it is for: after its steps every source is
/// gone and every destination exists; a path that is no source keeps
/// existing, and a path that is no destination nor an ancestor of one comes
/// into existence only if it was there before. So an entry left out of the
/// phase because its destination was taken keeps both paths as they were.
pub proof fn lemma_move_phase_effect(fs: Set<Seq<Part>>, es: Seq<(Seq<Part>, Seq<Part>)>)
    requires
        moves_apart(es),
    ensures
        forall|i: int|
            0 <= i < es.len() ==> !apply(fs, plan_of(es)).contains(#[trigger] es[i].0) && apply(
                fs,
                plan_of(es),
            ).contains(es[i].1),
        forall|q: Seq<Part>|
            fs.contains(q) && (forall|i: int| 0 <= i < es.len() ==> q != #[trigger] es[i].0)
                ==> #[trigger] apply(fs, plan_of(es)).contains(q),
        forall|q: Seq<Part>|
            !fs.contains(q) && (forall|i: int| 0 <= i < es.len() ==> !is_prefix(q, #[trigger] es[i].1))
                ==> !#[trigger] apply(fs, plan_of(es)).contains(q),
    decreases es.len(),
{
    if es.len() > 0 {
        let pre = es.drop_last();
        let e = es.last();
        let n = es.len() - 1;
        assert(moves_apart(pre)) by {
            assert forall|i: int, j: int| 0 <= i < pre.len() && 0 <= j < pre.len() implies !is_prefix(
                #[trigger] pre[i].0,
                #[trigger] pre[j].1,
            ) by {
                assert(pre[i] == es[i] && pre[j] == es[j]);
            }
        }
        lemma_move_phase_effect(fs, pre);
        let mid = plan_of(pre);
        let create = if has_parent(e.1) && !parent_among(pre, e.1.drop_last()) {
            seq![Action::CreateDir(e.1.drop_last())]
        } else {
            Seq::empty()
        };
        let last = seq![Action::Rename(e.0, e.1)];
        assert(plan_of(es) == mid + create + last);
        lemma_apply_append(fs, mid, create);
        lemma_apply_append(fs, mid + create, last);
        let s1 = apply(fs, mid);
        let s2 = apply(s1, create);
        let s3 = apply(s2, last);
        assert(apply(s2, last.drop_last()) == s2) by {
            assert(last.drop_last() =~= Seq::<Action>::empty());
        }
        assert(s3 == s2.remove(e.0).insert(e.1));
        if create.len() > 0 {
            assert(create.drop_last() =~= Seq::<Action>::empty());
            assert(apply(s1, create.drop_last()) == s1);
            assert(s2 == s1.union(with_ancestors(e.1.drop_last())));
        } else {
            assert(create =~= Seq::<Action>::empty());
            assert(s2 == s1);
        }
        // A directory that the step creates lies on the way to `e.1`.
        assert forall|q: Seq<Part>| s2.contains(q) && !s1.contains(q) implies is_prefix(q, e.1)
            && q != e.1 by {
            assert(create.len() > 0);
            assert(with_ancestors(e.1.drop_last()).contains(q));
            assert(q.len() <= e.1.len() - 1);
            assert(e.1.take(q.len() as int) =~= e.1.drop_last().take(q.len() as int));
        }
        assert forall|i: int| 0 <= i < es.len() implies !s3.contains(#[trigger] es[i].0) && s3.contains(
            es[i].1,
        ) by {
            assert(!is_prefix(es[i].0, e.1));
            assert(e.1.take(e.1.len() as int) =~= e.1);
            assert(es[i].1.take(es[i].1.len() as int) =~= es[i].1);
            assert(es[i].0 != e.1);
            if i < n {
                assert(pre[i] == es[i]);
                assert(!is_prefix(e.0, es[i].1));
                assert(e.0 != es[i].1);
                assert(!s1.contains(pre[i].0));
                assert(s1.contains(pre[i].1));
                if s2.contains(es[i].0) && !s1.contains(es[i].0) {
                    assert(is_prefix(es[i].0, e.1));
                }
            } else {
                assert(!is_prefix(e.0, e.1));
                assert(e.0 != e.1);
            }
        }
        assert forall|q: Seq<Part>|
            fs.contains(q) && (forall|i: int| 0 <= i < es.len() ==> q != #[trigger] es[i].0)
                implies #[trigger] s3.contains(q) by {
            assert(q != es[n].0);
            assert forall|i: int| 0 <= i < pre.len() implies q != #[trigger] pre[i].0 by {
                assert(pre[i] == es[i]);
            }
        }
        assert forall|q: Seq<Part>|
            !fs.contains(q) && (forall|i: int| 0 <= i < es.len() ==> !is_prefix(q, #[trigger] es[i].1))
                implies !#[trigger] s3.contains(q) by {
            assert(!is_prefix(q, es[n].1));
            assert forall|i: int| 0 <= i < pre.len() implies !is_prefix(q, #[trigger] pre[i].1) by {
                assert(pre[i] == es[i]);
            }
            assert(!s1.contains(q));
            if s2.contains(q) && !s1.contains(q) {
                assert(is_prefix(q, e.1));
            }
            assert(e.1.take(e.1.len() as int) =~= e.1);
            assert(q != e.1);
            assert(!s2.contains(q));
        }
    }
}

proof fn lemma_select_from(es: Seq<(Seq<Part>, Seq<Part>)>, occupied: Seq<bool>, flag: bool)
    requires
        occupied.len() == es.len(),
    ensures
        forall|k: int|
            0 <= k < select(es, occupied, flag).len() ==> exists|i: int|
                0 <= i < es.len() && occupied[i] == flag && #[trigger] select(es, occupied, flag)[k]
                    == es[i],
    decreases es.len(),
{
    if es.len() > 0 {
        let pre = es.drop_last();
        let occ = occupied.take(es.len() - 1);
        lemma_select_from(pre, occ, flag);
        let sp = select(pre, occ, flag);
        assert forall|k: int| 0 <= k < select(es, occupied, flag).len() implies exists|i: int|
            0 <= i < es.len() && occupied[i] == flag && #[trigger] select(es, occupied, flag)[k]
                == es[i] by {
            if k < sp.len() {
                let i = choose|i: int| 0 <= i < pre.len() && occ[i] == flag && sp[k] == pre[i];
                assert(occupied[i] == occ[i] && es[i] == pre[i]);
                assert(select(es, occupied, flag)[k] == es[i]);
            } else {
                assert(occupied[es.len() - 1] == flag);
                assert(select(es, occupied, flag)[k] == es[es.len() - 1]);
            }
        }
    }
}

proof fn lemma_select_apart(es: Seq<(Seq<Part>, Seq<Part>)>, occupied: Seq<bool>, flag: bool)
    requires
        occupied.len() == es.len(),
        moves_apart(es),
    ensures
        moves_apart(select(es, occupied, flag)),
    decreases es.len(),
{
    if es.len() > 0 {
        let pre = es.drop_last();
        let occ = occupied.take(es.len() - 1);
        assert(moves_apart(pre)) by {
            assert forall|i: int, j: int| 0 <= i < pre.len() && 0 <= j < pre.len() implies !is_prefix(
                #[trigger] pre[i].0,
                #[trigger] pre[j].1,
            ) by {
                assert(pre[i] == es[i] && pre[j] == es[j]);
            }
        }
        lemma_select_apart(pre, occ, flag);
        lemma_select_from(pre, occ, flag);
        let sp = select(pre, occ, flag);
        let sel = select(es, occupied, flag);
        if occupied[es.len() - 1] == flag {
            let n = es.len() - 1;
            assert(sel == sp.push(es[n]));
            assert forall|a: int, b: int| 0 <= a < sel.len() && 0 <= b < sel.len() implies !is_prefix(
                #[trigger] sel[a].0,
                #[trigger] sel[b].1,
            ) by {
                let ia = if a < sp.len() {
                    choose|i: int| 0 <= i < pre.len() && occ[i] == flag && sp[a] == pre[i]
                } else {
                    n
                };
                let ib = if b < sp.len() {
                    choose|i: int| 0 <= i < pre.len() && occ[i] == flag && sp[b] == pre[i]
                } else {
                    n
                };
                assert(sel[a] == es[ia] && sel[b] == es[ib]);
            }
        }
    }
}

/// Where the source root and the target lie apart (neither starts with the
/// other), re-rooting items found under the source root gives moves in
/// which no source is a destination or an ancestor of one.
pub proof fn lemma_destinations_apart(target: Seq<Part>, child: Seq<Part>, items: Seq<Seq<Part>>)
    requires
        !is_prefix(child, target),
        !is_prefix(target, child),
        forall|i: int| 0 <= i < items.len() ==> is_prefix(child, #[trigger] items[i]),
    ensures
        moves_apart(destinations_of(target, child, items)),
{
    let es = destinations_of(target, child, items);
    assert forall|i: int, j: int| 0 <= i < es.len() && 0 <= j < es.len() implies !is_prefix(
        #[trigger] es[i].0,
        #[trigger] es[j].1,
    ) by {
        lemma_reroot_keeps_suffix(items[j], child, target);
        let d = es[j].1;
        assert(is_prefix(target, d));
        if is_prefix(items[i], d) {
            assert(is_prefix(child, items[i]));
            assert(d.take(child.len() as int) =~= items[i].take(child.len() as int));
            if child.len() <= target.len() {
                assert(target.take(child.len() as int) =~= d.take(child.len() as int));
            } else {
                assert(child.take(target.len() as int) =~= d.take(target.len() as int));
            }
        }
    }
}

/// The move phase of one subtree, as `plan_subtree` plans it for the items
/// found under `child`, with `occupied` telling which destinations exist in
/// `fs`: where the source root and the target lie apart, every entry whose
/// destination was free is gone from its source and present at its
/// destination, and every entry left out for a conflict still exists at its
/// source and, as before, at its taken destination.
pub proof fn lemma_subtree_move_effect(
    fs: Set<Seq<Part>>,
    target: Seq<Part>,
    child: Seq<Part>,
    items: Seq<Seq<Part>>,
    occupied: Seq<bool>,
)
    requires
        !is_prefix(child, target),
        !is_prefix(target, child),
        forall|i: int| 0 <= i < items.len() ==> is_prefix(child, #[trigger] items[i]),
        occupied.len() == items.len(),
        forall|i: int|
            0 <= i < items.len() ==> #[trigger] occupied[i] == fs.contains(
                splice_of(items[i], target, child),
            ),
    ensures
        ({
            let es = destinations_of(target, child, items);
            let moved = select(es, occupied, false);
            let kept = select(es, occupied, true);
            let after = apply(fs, plan_of(moved));
            &&& forall|k: int|
                0 <= k < moved.len() ==> !after.contains(#[trigger] moved[k].0) && after.contains(
                    moved[k].1,
                )
            &&& forall|k: int|
                0 <= k < kept.len() ==> (fs.contains(#[trigger] kept[k].0) ==> after.contains(
                    kept[k].0,
                )) && (fs.contains(kept[k].1) ==> after.contains(kept[k].1))
        }),
{
    let es = destinations_of(target, child, items);
    let moved = select(es, occupied, false);
    let kept = select(es, occupied, true);
    lemma_destinations_apart(target, child, items);
    lemma_select_apart(es, occupied, false);
    lemma_select_from(es, occupied, false);
    lemma_select_from(es, occupied, true);
    lemma_move_phase_effect(fs, moved);
    let after = apply(fs, plan_of(moved));
    assert forall|k: int| 0 <= k < kept.len() implies (fs.contains(#[trigger] kept[k].0)
        ==> after.contains(kept[k].0)) && (fs.contains(kept[k].1) ==> after.contains(kept[k].1)) by {
        let i = choose|i: int| 0 <= i < es.len() && occupied[i] == true && kept[k] == es[i];
        assert forall|m: int| 0 <= m < moved.len() implies kept[k].0 != #[trigger] moved[m].0
            && kept[k].1 != moved[m].0 by {
            let j = choose|j: int| 0 <= j < es.len() && occupied[j] == false && moved[m] == es[j];
            assert(es[i].0 == items[i] && es[j].0 == items[j]);
            assert(occupied[i] != occupied[j]);
            assert(items[i] != items[j]);
            assert(!is_prefix(es[j].0, es[i].1));
            assert(es[i].1.take(es[i].1.len() as int) =~= es[i].1);
        }
    }
}

/// The move phase of one subtree, wherever the source root lies, the target
/// included: where every item found exists in `fs`, `occupied` tells which
/// destinations exist in `fs`, and no item whose destination is free lies
/// strictly above another such destination, every moved entry is gone from
/// its source and present at its destination.
pub proof fn lemma_moved_items_arrive(
    fs: Set<Seq<Part>>,
    target: Seq<Part>,
    child: Seq<Part>,
    items: Seq<Seq<Part>>,
    occupied: Seq<bool>,
)
    requires
        occupied.len() == items.len(),
        forall|i: int| 0 <= i < items.len() ==> fs.contains(#[trigger] items[i]),
        forall|i: int|
            0 <= i < items.len() ==> #[trigger] occupied[i] == fs.contains(
                splice_of(items[i], target, child),
            ),
        forall|i: int, j: int|
            0 <= i < items.len() && 0 <= j < items.len() && !occupied[i] && !occupied[j] ==> !(
            is_prefix(#[trigger] items[i], #[trigger] splice_of(items[j], target, child))
                && items[i].len() < splice_of(items[j], target, child).len()),
    ensures
        ({
            let moved = select(destinations_of(target, child, items), occupied, false);
            let after = apply(fs, plan_of(moved));
            forall|k: int|
                0 <= k < moved.len() ==> !after.contains(#[trigger] moved[k].0) && after.contains(
                    moved[k].1,
                )
        }),
{
    let es = destinations_of(target, child, items);
    let moved = select(es, occupied, false);
    lemma_select_from(es, occupied, false);
    assert forall|a: int, b: int| 0 <= a < moved.len() && 0 <= b < moved.len() implies !is_prefix(
        #[trigger] moved[a].0,
        #[trigger] moved[b].1,
    ) by {
        let i = choose|i: int| 0 <= i < es.len() && occupied[i] == false && moved[a] == es[i];
        let j = choose|j: int| 0 <= j < es.len() && occupied[j] == false && moved[b] == es[j];
        assert(es[i].0 == items[i] && es[j].1 == splice_of(items[j], target, child));
        assert(fs.contains(items[i]));
        if is_prefix(items[i], es[j].1) && items[i].len() == es[j].1.len() {
            assert(es[j].1.take(items[i].len() as int) =~= es[j].1);
        }
    }
    lemma_move_phase_effect(fs, moved);
}

proof fn lemma_select_has(es: Seq<(Seq<Part>, Seq<Part>)>, occupied: Seq<bool>, flag: bool, i: int)
    requires
        occupied.len() == es.len(),
        0 <= i < es.len(),
        occupied[i] == flag,
    ensures
        exists|k: int|
            0 <= k < select(es, occupied, flag).len() && #[trigger] select(es, occupied, flag)[k]
                == es[i],
    decreases es.len(),
{
    let pre = es.drop_last();
    let occ = occupied.take(es.len() - 1);
    let sel = select(es, occupied, flag);
    if i == es.len() - 1 {
        assert(sel[sel.len() - 1] == es[i]);
    } else {
        lemma_select_has(pre, occ, flag, i);
        let k = choose|k: int|
            0 <= k < select(pre, occ, flag).len() && #[trigger] select(pre, occ, flag)[k] == pre[i];
        assert(sel[k] == es[i]);
    }
}

proof fn lemma_select_none(es: Seq<(Seq<Part>, Seq<Part>)>, occupied: Seq<bool>)
    requires
        occupied.len() == es.len(),
        forall|i: int| 0 <= i < occupied.len() ==> #[trigger] occupied[i],
    ensures
        select(es, occupied, false).len() == 0,
    decreases es.len(),
{
    if es.len() > 0 {
        lemma_select_none(es.drop_last(), occupied.take(es.len() - 1));
        assert(occupied[es.len() - 1]);
    }
}

/// Running again changes nothing: after the move phase of a subtree whose
/// root lies apart from the target, a second plan over the items still
/// found there (each one of the first items), with the destinations taken
/// as they now are, has no step and sets every item aside as taken; where
/// any item is still there, the subtree is not pruned either.
pub proof fn lemma_second_run_is_still(
    fs: Set<Seq<Part>>,
    target: Seq<Part>,
    child: Seq<Part>,
    items: Seq<Seq<Part>>,
    occupied: Seq<bool>,
    again: Seq<Seq<Part>>,
    occupied_again: Seq<bool>,
)
    requires
        !is_prefix(child, target),
        !is_prefix(target, child),
        forall|i: int| 0 <= i < items.len() ==> is_prefix(child, #[trigger] items[i]),
        occupied.len() == items.len(),
        forall|i: int|
            0 <= i < items.len() ==> #[trigger] occupied[i] == fs.contains(
                splice_of(items[i], target, child),
            ),
        forall|k: int|
            0 <= k < again.len() ==> items.contains(#[trigger] again[k]) && apply(
                fs,
                plan_of(select(destinations_of(target, child, items), occupied, false)),
            ).contains(again[k]),
        occupied_again.len() == again.len(),
        forall|k: int|
            0 <= k < again.len() ==> #[trigger] occupied_again[k] == apply(
                fs,
                plan_of(select(destinations_of(target, child, items), occupied, false)),
            ).contains(splice_of(again[k], target, child)),
    ensures
        plan_of(select(destinations_of(target, child, again), occupied_again, false)).len() == 0,
        select(destinations_of(target, child, again), occupied_again, true) == destinations_of(
            target,
            child,
            again,
        ),
{
    let es = destinations_of(target, child, items);
    let moved = select(es, occupied, false);
    let kept = select(es, occupied, true);
    let after = apply(fs, plan_of(moved));
    lemma_subtree_move_effect(fs, target, child, items, occupied);
    assert forall|k: int| 0 <= k < occupied_again.len() implies #[trigger] occupied_again[k] by {
        assert(items.contains(again[k]));
        let i = choose|i: int| 0 <= i < items.len() && items[i] == again[k];
        assert(after.contains(again[k]));
        assert(es[i].0 == items[i] && es[i].1 == splice_of(items[i], target, child));
        assert(occupied_again[k] == after.contains(es[i].1));
        assert(occupied[i] == fs.contains(es[i].1));
        if occupied[i] {
            lemma_select_has(es, occupied, true, i);
            let m = choose|m: int| 0 <= m < kept.len() && #[trigger] kept[m] == es[i];
            assert(fs.contains(kept[m].1));
            assert(after.contains(kept[m].1));
        } else {
            lemma_select_has(es, occupied, false, i);
            let m = choose|m: int| 0 <= m < moved.len() && #[trigger] moved[m] == es[i];
            assert(!after.contains(moved[m].0));
            assert(false);
        }
    }
    let es2 = destinations_of(target, child, again);
    lemma_select_none(es2, occupied_again);
    assert(plan_of(select(es2, occupied_again, false)) == Seq::<Action>::empty());
    lemma_select_all(es2, occupied_again);
}

proof fn lemma_select_all(es: Seq<(Seq<Part>, Seq<Part>)>, occupied: Seq<bool>)
    requires
        occupied.len() == es.len(),
        forall|i: int| 0 <= i < occupied.len() ==> #[trigger] occupied[i],
    ensures
        select(es, occupied, true) == es,
    decreases es.len(),
{
    if es.len() == 0 {
        assert(select(es, occupied, true) =~= es);
    } else {
        lemma_select_all(es.drop_last(), occupied.take(es.len() - 1));
        assert(occupied[es.len() - 1]);
        assert(es.drop_last().push(es.last()) =~= es);
    }
}

} // verus!
