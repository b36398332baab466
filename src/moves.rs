use vstd::prelude::*;

use crate::path::{has_parent, is_prefix, splice_of, strictly_under, FsPath, Part, SplicePath};

verus! {

/// A file or symlink to move, and where it goes.
pub struct MoveEntry {
    pub from: FsPath,
    pub to: FsPath,
}

impl View for MoveEntry {
    type V = (Seq<Part>, Seq<Part>);

    open spec fn view(&self) -> (Seq<Part>, Seq<Part>) {
        (self.from@, self.to@)
    }
}

impl MoveEntry {
    pub fn duplicate(&self) -> (r: MoveEntry)
        ensures
            r@ == self@,
    {
        MoveEntry { from: self.from.duplicate(), to: self.to.duplicate() }
    }
}

pub open spec fn entries_view(v: Seq<MoveEntry>) -> Seq<(Seq<Part>, Seq<Part>)> {
    v.map_values(|e: MoveEntry| e@)
}

pub open spec fn paths_view(v: Seq<FsPath>) -> Seq<Seq<Part>> {
    v.map_values(|p: FsPath| p@)
}

/// Why no move could be planned.
#[derive(Debug, Clone, Copy, PartialEq, Eq, Structural)]
pub enum PlanError {
    /// The item at this index does not lie strictly below the subtree's root.
    NotUnderSubtree(usize),
    /// The target is the subtree's root or lies inside the subtree.
    TargetInSubtree,
}

/// Each item paired with its path re-rooted from `child` to `target`.
pub open spec fn destinations_of(target: Seq<Part>, child: Seq<Part>, items: Seq<Seq<Part>>) -> Seq<
    (Seq<Part>, Seq<Part>),
> {
    Seq::new(items.len(), |i: int| (items[i], splice_of(items[i], target, child)))
}

/// Pairs each item found under `child` with the path that keeps its place
/// below `child`, but under `target`. Fails where the target is `child` or
/// lies inside it, and otherwise with the index of the first item that does
/// lie strictly below `child`.
pub fn destinations(target: &FsPath, child: &FsPath, discovered: &Vec<FsPath>) -> (r: Result<
    Vec<MoveEntry>,
    PlanError,
>)
    ensures
        r is Ok <==> !is_prefix(child@, target@) && forall|i: int|
            0 <= i < discovered@.len() ==> strictly_under(child@, #[trigger] discovered@[i]@),
        (r matches Err(PlanError::TargetInSubtree)) <==> is_prefix(child@, target@),
        r matches Ok(v) ==> entries_view(v@) == destinations_of(
            target@,
            child@,
            paths_view(discovered@),
        ),
        r matches Err(PlanError::NotUnderSubtree(k)) ==> k < discovered@.len() && !strictly_under(
            child@,
            discovered@[k as int]@,
        ) && forall|j: int| 0 <= j < k ==> strictly_under(child@, #[trigger] discovered@[j]@),
{
    if target.starts_with(child) {
        return Err(PlanError::TargetInSubtree);
    }
    let mut out: Vec<MoveEntry> = Vec::new();
    let mut i: usize = 0;
    while i < discovered.len()
        invariant
            !is_prefix(child@, target@),
            0 <= i <= discovered@.len(),
            forall|j: int| 0 <= j < i ==> strictly_under(child@, #[trigger] discovered@[j]@),
            entries_view(out@) == destinations_of(
                target@,
                child@,
                paths_view(discovered@),
            ).take(i as int),
        decreases discovered@.len() - i,
    {
        let from = &discovered[i];
        if from.len() <= child.len() || !from.starts_with(child) {
            return Err(PlanError::NotUnderSubtree(i));
        }
        let to = from.splice(target, child);
        let ghost before = entries_view(out@);
        out.push(MoveEntry { from: from.duplicate(), to });
        proof {
            assert(entries_view(out@) =~= before.push((from@, to@)));
            assert(destinations_of(target@, child@, paths_view(discovered@)).take(i + 1)
                =~= destinations_of(target@, child@, paths_view(discovered@)).take(i as int).push(
                (from@, to@),
            ));
        }
        i = i + 1;
    }
    proof {
        assert(destinations_of(target@, child@, paths_view(discovered@)).take(i as int)
            =~= destinations_of(target@, child@, paths_view(discovered@)));
    }
    Ok(out)
}

/// The entries whose flag in `occupied` equals `flag`, in their order.
pub open spec fn select(es: Seq<(Seq<Part>, Seq<Part>)>, occupied: Seq<bool>, flag: bool) -> Seq<
    (Seq<Part>, Seq<Part>),
>
    decreases es.len(),
{
    if es.len() == 0 || occupied.len() < es.len() {
        Seq::empty()
    } else {
        let pre = select(es.drop_last(), occupied.take(es.len() - 1), flag);
        if occupied[es.len() - 1] == flag {
            pre.push(es.last())
        } else {
            pre
        }
    }
}

/// Splits entries into those whose destination is free and those whose
/// destination is taken; `occupied[i]` tells whether the destination of
/// `entries[i]` exists.
pub fn partition_file_conflicts(entries: &Vec<MoveEntry>, occupied: &Vec<bool>) -> (r: (
    Vec<MoveEntry>,
    Vec<MoveEntry>,
))
    requires
        occupied@.len() == entries@.len(),
    ensures
        entries_view(r.0@) == select(entries_view(entries@), occupied@, false),
        entries_view(r.1@) == select(entries_view(entries@), occupied@, true),
{
    let mut moveables: Vec<MoveEntry> = Vec::new();
    let mut conflicts: Vec<MoveEntry> = Vec::new();
    let ghost es = entries_view(entries@);
    let mut i: usize = 0;
    while i < entries.len()
        invariant
            es == entries_view(entries@),
            occupied@.len() == entries@.len(),
            0 <= i <= entries@.len(),
            entries_view(moveables@) == select(es.take(i as int), occupied@.take(i as int), false),
            entries_view(conflicts@) == select(es.take(i as int), occupied@.take(i as int), true),
        decreases entries@.len() - i,
    {
        let e = entries[i].duplicate();
        let ghost m0 = entries_view(moveables@);
        let ghost c0 = entries_view(conflicts@);
        proof {
            assert(es.take(i + 1).drop_last() =~= es.take(i as int));
            assert(occupied@.take(i + 1).take(i as int) =~= occupied@.take(i as int));
            assert(es.take(i + 1).last() == e@);
        }
        if occupied[i] {
            conflicts.push(e);
            proof {
                assert(entries_view(conflicts@) =~= c0.push(e@));
                assert(entries_view(moveables@) =~= m0);
            }
        } else {
            moveables.push(e);
            proof {
                assert(entries_view(moveables@) =~= m0.push(e@));
                assert(entries_view(conflicts@) =~= c0);
            }
        }
        i = i + 1;
    }
    proof {
        assert(es.take(i as int) =~= es);
        assert(occupied@.take(i as int) =~= occupied@);
    }
    (moveables, conflicts)
}

/// Partition loses no entry and counts none twice: the free and the taken
/// entries together are, as a multiset, exactly the entries given.
pub proof fn lemma_partition_exact(es: Seq<(Seq<Part>, Seq<Part>)>, occupied: Seq<bool>)
    requires
        occupied.len() == es.len(),
    ensures
        select(es, occupied, false).to_multiset().add(select(es, occupied, true).to_multiset())
            == es.to_multiset(),
    decreases es.len(),
{
    broadcast use vstd::seq_lib::group_to_multiset_ensures;

    if es.len() > 0 {
        let pre = es.drop_last();
        let occ = occupied.take(es.len() - 1);
        lemma_partition_exact(pre, occ);
        assert(es =~= pre.push(es.last()));
    }
    assert(select(es, occupied, false).to_multiset().add(select(es, occupied, true).to_multiset())
        =~= es.to_multiset());
}

/// One change to the file system in a move phase.
pub enum Step {
    /// Create this directory and any of its missing ancestors.
    CreateDir(FsPath),
    /// Rename the first path to the second.
    Rename(FsPath, FsPath),
}

/// A `Step` in specifications.
pub enum Action {
    CreateDir(Seq<Part>),
    Rename(Seq<Part>, Seq<Part>),
}

impl View for Step {
    type V = Action;

    open spec fn view(&self) -> Action {
        match self {
            Step::CreateDir(d) => Action::CreateDir(d@),
            Step::Rename(a, b) => Action::Rename(a@, b@),
        }
    }
}

pub open spec fn steps_view(v: Seq<Step>) -> Seq<Action> {
    v.map_values(|s: Step| s@)
}

/// Some entry of `es` has a destination whose parent is `d`.
pub open spec fn parent_among(es: Seq<(Seq<Part>, Seq<Part>)>, d: Seq<Part>) -> bool {
    exists|i: int| 0 <= i < es.len() && has_parent(#[trigger] es[i].1) && es[i].1.drop_last() == d
}

/// The move phase for `es`, in order: for each entry, the creation of its
/// destination's parent where no earlier entry has that parent, then its
/// rename.
pub open spec fn plan_of(es: Seq<(Seq<Part>, Seq<Part>)>) -> Seq<Action>
    decreases es.len(),
{
    if es.len() == 0 {
        Seq::empty()
    } else {
        let pre = es.drop_last();
        let e = es.last();
        let create = if has_parent(e.1) && !parent_among(pre, e.1.drop_last()) {
            seq![Action::CreateDir(e.1.drop_last())]
        } else {
            Seq::empty()
        };
        plan_of(pre) + create + seq![Action::Rename(e.0, e.1)]
    }
}

/// Some path of `v` is `d`.
pub open spec fn holds_path(v: Seq<FsPath>, d: Seq<Part>) -> bool {
    exists|j: int| 0 <= j < v.len() && (#[trigger] v[j])@ == d
}

fn contains_path(v: &Vec<FsPath>, p: &FsPath) -> (r: bool)
    ensures
        r == holds_path(v@, p@),
{
    let mut j: usize = 0;
    while j < v.len()
        invariant
            0 <= j <= v@.len(),
            forall|k: int| 0 <= k < j ==> (#[trigger] v@[k])@ != p@,
        decreases v@.len() - j,
    {
        if v[j].same(p) {
            return true;
        }
        j = j + 1;
    }
    false
}

proof fn lemma_parent_among_push(pre: Seq<(Seq<Part>, Seq<Part>)>, e: (Seq<Part>, Seq<Part>))
    ensures
        forall|d: Seq<Part>|
            #[trigger] parent_among(pre.push(e), d) <==> (parent_among(pre, d) || (has_parent(e.1)
                && e.1.drop_last() == d)),
{
    let now = pre.push(e);
    assert forall|d: Seq<Part>|
        #[trigger] parent_among(now, d) <==> (parent_among(pre, d) || (has_parent(e.1)
            && e.1.drop_last() == d)) by {
        if parent_among(now, d) {
            let k = choose|k: int|
                0 <= k < now.len() && has_parent(#[trigger] now[k].1) && now[k].1.drop_last() == d;
            if k < pre.len() {
                assert(now[k] == pre[k]);
            }
        }
        if parent_among(pre, d) {
            let k = choose|k: int|
                0 <= k < pre.len() && has_parent(#[trigger] pre[k].1) && pre[k].1.drop_last() == d;
            assert(now[k] == pre[k]);
        }
        if has_parent(e.1) && e.1.drop_last() == d {
            assert(now[pre.len() as int] == e);
        }
    }
}

/// The steps that carry out the moves of `movable`: each missing parent is
/// created once, before the first rename into it.
pub fn plan_moves(movable: &Vec<MoveEntry>) -> (r: Vec<Step>)
    ensures
        steps_view(r@) == plan_of(entries_view(movable@)),
{
    let ghost es = entries_view(movable@);
    let mut steps: Vec<Step> = Vec::new();
    let mut created: Vec<FsPath> = Vec::new();
    let mut i: usize = 0;
    while i < movable.len()
        invariant
            es == entries_view(movable@),
            0 <= i <= movable@.len(),
            steps_view(steps@) == plan_of(es.take(i as int)),
            forall|d: Seq<Part>|
                #[trigger] holds_path(created@, d) <==> parent_among(es.take(i as int), d),
        decreases movable@.len() - i,
    {
        let e = &movable[i];
        let ghost pre = es.take(i as int);
        let ghost now = es.take(i + 1);
        let ghost s0 = steps_view(steps@);
        let ghost c0 = created@;
        proof {
            assert(now =~= pre.push(e@));
            assert(now.drop_last() =~= pre);
            assert(now.last() == e@);
            lemma_parent_among_push(pre, e@);
        }
        if e.to.has_parent() {
            let parent = e.to.prefix(e.to.len() - 1);
            proof {
                assert(parent@ =~= e.to@.drop_last());
            }
            let seen = contains_path(&created, &parent);
            proof {
                assert(seen == parent_among(pre, parent@));
            }
            if !seen {
                let pd = parent.duplicate();
                created.push(pd);
                steps.push(Step::CreateDir(parent));
                proof {
                    assert(created@ == c0.push(pd));
                    assert(steps_view(steps@) =~= s0.push(Action::CreateDir(pd@)));
                    assert forall|d: Seq<Part>|
                        #[trigger] holds_path(created@, d) <==> (holds_path(c0, d) || pd@ == d) by {
                        if holds_path(c0, d) {
                            let j = choose|j: int| 0 <= j < c0.len() && (#[trigger] c0[j])@ == d;
                            assert(created@[j] == c0[j]);
                        }
                        if pd@ == d {
                            assert(created@[c0.len() as int] == pd);
                        }
                        if holds_path(created@, d) {
                            let j = choose|j: int| 0 <= j < created@.len() && (#[trigger] created@[j])@ == d;
                            if j < c0.len() {
                                assert(created@[j] == c0[j]);
                            }
                        }
                    }
                }
            }
        }
        let ghost s1 = steps_view(steps@);
        steps.push(Step::Rename(e.from.duplicate(), e.to.duplicate()));
        proof {
            assert(steps_view(steps@) =~= s1.push(Action::Rename(e.from@, e.to@)));
            assert(steps_view(steps@) =~= plan_of(now));
        }
        i = i + 1;
    }
    proof {
        assert(es.take(i as int) =~= es);
    }
    steps
}

/// What is to be done for one source subtree.
pub struct SubtreePlan {
    /// The move phase, in order.
    pub steps: Vec<Step>,
    /// The entries left in place because their destination is taken.
    pub conflicts: Vec<MoveEntry>,
    /// Whether the emptied subtree may be pruned afterwards: only where no
    /// entry was left in place.
    pub prune: bool,
}

/// Plans one subtree: entries whose destination is free are moved, in the
/// order given; the others are reported; pruning follows only where every
/// entry can move.
pub fn plan_subtree(entries: &Vec<MoveEntry>, occupied: &Vec<bool>) -> (r: SubtreePlan)
    requires
        occupied@.len() == entries@.len(),
    ensures
        steps_view(r.steps@) == plan_of(select(entries_view(entries@), occupied@, false)),
        entries_view(r.conflicts@) == select(entries_view(entries@), occupied@, true),
        r.prune == (select(entries_view(entries@), occupied@, true).len() == 0),
{
    let (moveables, conflicts) = partition_file_conflicts(entries, occupied);
    let steps = plan_moves(&moveables);
    let prune = conflicts.len() == 0;
    SubtreePlan { steps, conflicts, prune }
}

} // verus!
