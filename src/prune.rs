use vstd::prelude::*;

use crate::moves::SubtreePlan;
use crate::path::{has_parent, is_prefix, Component, FsPath, Part};

verus! {

/// What the search for the directory to remove asks for next, or found.
pub enum DeletionStep {
    /// The directory to remove, with everything beneath it.
    Remove(FsPath),
    /// Whether this directory holds nothing but the given entry, a
    /// subdirectory on the way down to the emptied subtree, is needed.
    Probe(FsPath, Component),
    /// No directory can be removed safely.
    NotFound,
}

/// A `DeletionStep` in specifications.
pub enum Deletion {
    Remove(Seq<Part>),
    Probe(Seq<Part>, Part),
    NotFound,
}

impl View for DeletionStep {
    type V = Deletion;

    open spec fn view(&self) -> Deletion {
        match self {
            DeletionStep::Remove(p) => Deletion::Remove(p@),
            DeletionStep::Probe(p, c) => Deletion::Probe(p@, c@),
            DeletionStep::NotFound => Deletion::NotFound,
        }
    }
}

/// The emptied subtree itself may be removed: it is not the root, and
/// neither the target nor an ancestor of it.
pub open spec fn may_start(current: Seq<Part>, target: Seq<Part>) -> bool {
    has_parent(current) && !is_prefix(current, target)
}

/// The search may go from the ancestor of `current` with `k` components up
/// to that ancestor's parent, once the parent is found to hold nothing else:
/// the parent is not the root, and neither the target nor an ancestor of it.
pub open spec fn may_climb(current: Seq<Part>, target: Seq<Part>, k: int) -> bool {
    2 <= k <= current.len() && has_parent(current.take(k - 1)) && !is_prefix(
        current.take(k - 1),
        target,
    )
}

/// The search may go up one level at level `i`: the parent there could be
/// climbed to, and answer `i` of `probes` says that it holds nothing but the
/// directory below it. Answer `i` is for the ancestor of `current` with
/// `current.len() - 1 - i` components.
pub open spec fn level_clear(current: Seq<Part>, target: Seq<Part>, probes: Seq<bool>, i: int) -> bool {
    may_climb(current, target, current.len() - i) && 0 <= i < probes.len() && probes[i]
}

/// The search has gone `h` levels up from `current`, each level clear.
pub open spec fn climbed(current: Seq<Part>, target: Seq<Part>, probes: Seq<bool>, h: int) -> bool {
    0 <= h < current.len() && forall|i: int|
        0 <= i < h ==> #[trigger] level_clear(current, target, probes, i)
}

proof fn lemma_removal_safe(current: Seq<Part>, target: Seq<Part>, probes: Seq<bool>, h: int)
    requires
        climbed(current, target, probes, h),
        has_parent(current.take(current.len() - h)),
        !is_prefix(current.take(current.len() - h), target),
    ensures
        ({
            let d = current.take(current.len() - h);
            &&& is_prefix(d, current)
            &&& has_parent(d)
            &&& !is_prefix(d, target)
            &&& forall|j: int| 0 <= j < current.len() - d.len() ==> #[trigger] level_clear(current, target, probes, j)
        }),
{
    let d = current.take(current.len() - h);
    assert(current.take(d.len() as int) =~= d);
}

/// Decides the next step of the search for the directory to remove after the
/// move phase of `plan`, given the answers of the probes made so far. Where
/// the plan leaves items in `current`, nothing is removed.
/// The search starts at `current` and climbs while the parent is neither the
/// root, the target nor an ancestor of the target, and holds nothing but the
/// directory it climbs from. It stops at the highest such directory, and
/// finds nothing only where `current` itself may not be removed.
pub fn get_deletable_directory(
    current: &FsPath,
    target: &FsPath,
    plan: &SubtreePlan,
    probes: &Vec<bool>,
) -> (r: DeletionStep)
    ensures
        (r is NotFound) <==> (!plan.prune || !may_start(current@, target@)),
        r@ matches Deletion::Remove(d) ==> exists|h: int|
            #[trigger] climbed(current@, target@, probes@, h) && d == current@.take(
                current@.len() - h,
            ) && (!may_climb(current@, target@, current@.len() - h) || (h < probes@.len()
                && !probes@[h])),
        r@ matches Deletion::Probe(p, e) ==> climbed(current@, target@, probes@, probes@.len() as int)
            && may_climb(current@, target@, current@.len() - probes@.len()) && p == current@.take(
            current@.len() - probes@.len() - 1,
        ) && e == current@[current@.len() - probes@.len() - 1],
        r@ matches Deletion::Remove(d) ==> {
            &&& is_prefix(d, current@)
            &&& has_parent(d)
            &&& !is_prefix(d, target@)
            &&& forall|j: int|
                0 <= j < current@.len() - d.len() ==> #[trigger] level_clear(current@, target@, probes@, j)
        },
{
    if !plan.prune || !current.has_parent() || target.starts_with(current) {
        return DeletionStep::NotFound;
    }
    let n = current.len();
    let mut h: usize = 0;
    proof {
        assert(current@.take(n as int) =~= current@);
    }
    loop
        invariant
            n == current@.len(),
            plan.prune,
            may_start(current@, target@),
            h < n,
            h <= probes@.len(),
            climbed(current@, target@, probes@, h as int),
            has_parent(current@.take(n - h)),
            !is_prefix(current@.take(n - h), target@),
        decreases n - h,
    {
        let k = n - h;
        let ghost d = current@.take(k as int);
        proof {
            lemma_removal_safe(current@, target@, probes@, h as int);
            assert(current@.take(k as int).take(k as int) =~= current@.take(k as int));
        }
        if k < 2 {
            proof {
                assert(climbed(current@, target@, probes@, h as int));
            }
            let r = current.prefix(k);
            proof {
                assert(r@ == d);
            }
            return DeletionStep::Remove(r);
        }
        let p = current.prefix(k - 1);
        if !p.has_parent() || target.starts_with(&p) {
            proof {
                assert(climbed(current@, target@, probes@, h as int));
            }
            let r = current.prefix(k);
            proof {
                assert(r@ == d);
            }
            return DeletionStep::Remove(r);
        }
        if h < probes.len() {
            if probes[h] {
                proof {
                    assert(level_clear(current@, target@, probes@, h as int));
                    assert(climbed(current@, target@, probes@, h + 1));
                }
                h = h + 1;
            } else {
                proof {
                    assert(climbed(current@, target@, probes@, h as int));
                }
                let r = current.prefix(k);
            proof {
                assert(r@ == d);
            }
            return DeletionStep::Remove(r);
            }
        } else {
            let e = current.components[k - 1].duplicate();
            return DeletionStep::Probe(p, e);
        }
    }
}

} // verus!
