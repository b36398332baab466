use vstd::prelude::*;

verus! {

/// One component of a path, as a path is split by its separators.
pub enum Component {
    RootDir,
    CurDir,
    ParentDir,
    Normal(String),
}

/// What a component is, in specifications.
pub enum Part {
    Root,
    Cur,
    Parent,
    Name(Seq<char>),
}

impl View for Component {
    type V = Part;

    open spec fn view(&self) -> Part {
        match self {
            Component::RootDir => Part::Root,
            Component::CurDir => Part::Cur,
            Component::ParentDir => Part::Parent,
            Component::Normal(s) => Part::Name(s@),
        }
    }
}

impl Component {
    pub fn same(&self, other: &Component) -> (r: bool)
        ensures
            r == (self@ == other@),
    {
        match (self, other) {
            (Component::RootDir, Component::RootDir) => true,
            (Component::CurDir, Component::CurDir) => true,
            (Component::ParentDir, Component::ParentDir) => true,
            (Component::Normal(a), Component::Normal(b)) => a.eq(b),
            _ => false,
        }
    }

    pub fn duplicate(&self) -> (r: Component)
        ensures
            r@ == self@,
    {
        match self {
            Component::RootDir => Component::RootDir,
            Component::CurDir => Component::CurDir,
            Component::ParentDir => Component::ParentDir,
            Component::Normal(s) => Component::Normal(s.clone()),
        }
    }
}

/// A path held as the sequence of its components.
pub struct FsPath {
    pub components: Vec<Component>,
}

impl View for FsPath {
    type V = Seq<Part>;

    open spec fn view(&self) -> Seq<Part> {
        self.components@.map_values(|c: Component| c@)
    }
}

/// `p` starts with `q`, component by component (`p` may equal `q`).
pub open spec fn is_prefix(q: Seq<Part>, p: Seq<Part>) -> bool {
    q.len() <= p.len() && p.take(q.len() as int) == q
}

/// A path strictly below `root`.
pub open spec fn strictly_under(root: Seq<Part>, p: Seq<Part>) -> bool {
    is_prefix(root, p) && p.len() > root.len()
}

/// A path is absolute when it starts at the root.
pub open spec fn is_absolute(p: Seq<Part>) -> bool {
    p.len() > 0 && p[0] == Part::Root
}

/// A path has a parent unless it is empty or the root alone.
pub open spec fn has_parent(p: Seq<Part>) -> bool {
    p.len() > 1 || (p.len() == 1 && p[0] != Part::Root)
}

/// The components of `start`, then those of `p` past as many as `stop` has.
pub open spec fn splice_of(p: Seq<Part>, start: Seq<Part>, stop: Seq<Part>) -> Seq<Part> {
    start + p.skip(stop.len() as int)
}

/// `child` taken from `base`: itself when absolute, else appended to `base`.
pub open spec fn join_of(base: Seq<Part>, child: Seq<Part>) -> Seq<Part> {
    if is_absolute(child) {
        child
    } else {
        base + child
    }
}

impl FsPath {
    pub fn new(components: Vec<Component>) -> (r: FsPath)
        ensures
            r.components@ == components@,
    {
        FsPath { components }
    }

    pub fn len(&self) -> (r: usize)
        ensures
            r == self@.len(),
    {
        self.components.len()
    }

    pub fn duplicate(&self) -> (r: FsPath)
        ensures
            r@ == self@,
    {
        self.prefix(self.components.len())
    }

    /// The first `n` components.
    pub fn prefix(&self, n: usize) -> (r: FsPath)
        requires
            n <= self@.len(),
        ensures
            r@ == self@.take(n as int),
    {
        let mut i: usize = 0;
        let mut r = FsPath { components: Vec::new() };
        proof {
            assert(r@ =~= self@.take(0));
        }
        while i < n
            invariant
                i <= n <= self@.len(),
                r@ == self@.take(i as int),
            decreases n - i,
        {
            let ghost before = r@;
            let c = self.components[i].duplicate();
            r.components.push(c);
            proof {
                assert(r@ =~= before.push(c@));
                assert(self@.take(i + 1) =~= self@.take(i as int).push(self@[i as int]));
            }
            i = i + 1;
        }
        r
    }

    /// This path with one more component at its end.
    pub fn child(&self, c: Component) -> (r: FsPath)
        ensures
            r@ == self@.push(c@),
    {
        let mut r = self.duplicate();
        r.components.push(c);
        proof {
            assert(r@ =~= self@.push(c@));
        }
        r
    }

    pub fn same(&self, other: &FsPath) -> (r: bool)
        ensures
            r == (self@ == other@),
    {
        if self.components.len() != other.components.len() {
            proof {
                assert(self@.len() != other@.len());
            }
            return false;
        }
        let mut i: usize = 0;
        while i < self.components.len()
            invariant
                self@.len() == other@.len(),
                self.components@.len() == other.components@.len(),
                0 <= i <= self@.len(),
                forall|j: int| 0 <= j < i ==> self@[j] == other@[j],
            decreases self@.len() - i,
        {
            if !self.components[i].same(&other.components[i]) {
                proof {
                    assert(self@[i as int] != other@[i as int]);
                }
                return false;
            }
            i = i + 1;
        }
        proof {
            assert(self@ =~= other@);
        }
        true
    }

    /// Whether `self` starts with the components of `q`.
    pub fn starts_with(&self, q: &FsPath) -> (r: bool)
        ensures
            r == is_prefix(q@, self@),
    {
        if q.components.len() > self.components.len() {
            return false;
        }
        let mut i: usize = 0;
        while i < q.components.len()
            invariant
                q@.len() <= self@.len(),
                q.components@.len() <= self.components@.len(),
                0 <= i <= q@.len(),
                forall|j: int| 0 <= j < i ==> self@[j] == q@[j],
            decreases q@.len() - i,
        {
            if !self.components[i].same(&q.components[i]) {
                proof {
                    assert(self@.take(q@.len() as int)[i as int] != q@[i as int]);
                }
                return false;
            }
            i = i + 1;
        }
        proof {
            assert(self@.take(q@.len() as int) =~= q@);
        }
        true
    }

    pub fn is_absolute(&self) -> (r: bool)
        ensures
            r == is_absolute(self@),
    {
        self.components.len() > 0 && match &self.components[0] {
            Component::RootDir => true,
            _ => false,
        }
    }

    pub fn has_parent(&self) -> (r: bool)
        ensures
            r == has_parent(self@),
    {
        self.components.len() > 1 || (self.components.len() == 1 && !self.is_absolute())
    }

    /// `child` resolved against this path: kept when absolute, else appended.
    pub fn join(&self, child: &FsPath) -> (r: FsPath)
        ensures
            r@ == join_of(self@, child@),
    {
        if child.is_absolute() {
            return child.duplicate();
        }
        let mut r = self.duplicate();
        let mut i: usize = 0;
        while i < child.components.len()
            invariant
                0 <= i <= child@.len(),
                r@ == self@ + child@.take(i as int),
            decreases child@.len() - i,
        {
            let ghost before = r@;
            let c = child.components[i].duplicate();
            r.components.push(c);
            proof {
                assert(r@ =~= before.push(c@));
                assert(child@.take(i + 1) =~= child@.take(i as int).push(child@[i as int]));
                assert(self@ + child@.take(i + 1) =~= (self@ + child@.take(i as int)).push(c@));
            }
            i = i + 1;
        }
        proof {
            assert(child@.take(child@.len() as int) =~= child@);
        }
        r
    }
}

/// Re-rooting a path that lies under `stop`: the components of `start`
/// followed by those of the path past `stop`.
pub trait SplicePath: Sized + View<V = Seq<Part>> {
    fn splice(&self, start: &Self, stop: &Self) -> (r: Self)
        requires
            is_prefix(stop@, self@),
        ensures
            r@ == splice_of(self@, start@, stop@),
    ;
}

impl SplicePath for FsPath {
    fn splice(&self, start: &FsPath, stop: &FsPath) -> (r: FsPath) {
        let mut r = start.duplicate();
        let mids = stop.components.len();
        let mut i: usize = mids;
        while i < self.components.len()
            invariant
                mids == stop@.len(),
                mids <= i <= self@.len(),
                r@ == start@ + self@.subrange(mids as int, i as int),
            decreases self@.len() - i,
        {
            let ghost before = r@;
            let c = self.components[i].duplicate();
            r.components.push(c);
            proof {
                assert(r@ =~= before.push(c@));
                assert(self@.subrange(mids as int, i + 1) =~= self@.subrange(
                    mids as int,
                    i as int,
                ).push(self@[i as int]));
                assert(start@ + self@.subrange(mids as int, i + 1) =~= (start@ + self@.subrange(
                    mids as int,
                    i as int,
                )).push(c@));
            }
            i = i + 1;
        }
        r
    }
}

/// Re-rooting keeps the layout below the roots: where `item` lies under
/// `subtree`, the path that `splice` gives starts with `target`, and what
/// follows `target` in it is what follows `subtree` in `item`, at any depth.
pub proof fn lemma_reroot_keeps_suffix(item: Seq<Part>, subtree: Seq<Part>, target: Seq<Part>)
    requires
        is_prefix(subtree, item),
    ensures
        is_prefix(target, splice_of(item, target, subtree)),
        splice_of(item, target, subtree).skip(target.len() as int) == item.skip(
            subtree.len() as int,
        ),
{
    let r = splice_of(item, target, subtree);
    assert(r.take(target.len() as int) =~= target);
    assert(r.skip(target.len() as int) =~= item.skip(subtree.len() as int));
}

} // verus!
