use vstd::prelude::*;

use crate::listing::{arranged, DirEntry, EntryKind, Listing};
use crate::path::{is_prefix, strictly_under, Component, FsPath, Part};

verus! {

/// A directory being read: its path, its entries, and the first entry not
/// yet looked at.
pub struct Frame {
    pub dir: FsPath,
    pub entries: Vec<DirEntry>,
    pub next: usize,
}

/// A frame in specifications: the directory and the entries still ahead.
pub type FrameView = (Seq<Part>, Seq<(Seq<char>, EntryKind)>);

impl View for Frame {
    type V = FrameView;

    open spec fn view(&self) -> FrameView {
        (self.dir@, self.entries@.map_values(|e: DirEntry| e@).skip(self.next as int))
    }
}

/// What the walk does next.
pub enum ScanStep {
    /// A file or symlink was found at this path.
    Found(FsPath),
    /// This subdirectory is to be read and handed to `enter`.
    Open(FsPath),
    /// Every directory has been read to its end.
    Done,
}

/// A `ScanStep` in specifications.
pub enum Scan {
    Found(Seq<Part>),
    Open(Seq<Part>),
    Done,
}

impl View for ScanStep {
    type V = Scan;

    open spec fn view(&self) -> Scan {
        match self {
            ScanStep::Found(p) => Scan::Found(p@),
            ScanStep::Open(p) => Scan::Open(p@),
            ScanStep::Done => Scan::Done,
        }
    }
}

/// The next step of a walk over the frames `fs`, the last one read first,
/// and the frames after it. Directories that are read to their end are left;
/// entries of other types are stepped over. Each frame holds its files and
/// symlinks ahead of its subdirectories, so a directory's own items all come
/// out before the walk goes down into any subdirectory of it.
pub open spec fn scan_next(fs: Seq<FrameView>) -> (Seq<FrameView>, Scan)
    decreases fs.len(), if fs.len() > 0 {
        fs.last().1.len()
    } else {
        0
    },
{
    if fs.len() == 0 {
        (fs, Scan::Done)
    } else {
        let top = fs.last();
        if top.1.len() == 0 {
            scan_next(fs.drop_last())
        } else {
            let e = top.1[0];
            let rest = fs.drop_last().push((top.0, top.1.skip(1)));
            let path = top.0.push(Part::Name(e.0));
            match e.1 {
                EntryKind::File => (rest, Scan::Found(path)),
                EntryKind::Symlink => (rest, Scan::Found(path)),
                EntryKind::Directory => (rest, Scan::Open(path)),
                EntryKind::Other => scan_next(rest),
            }
        }
    }
}

/// Every frame reads a directory at or below `root`.
pub open spec fn frames_under(root: Seq<Part>, fs: Seq<FrameView>) -> bool {
    forall|i: int| 0 <= i < fs.len() ==> is_prefix(root, #[trigger] fs[i].0)
}

/// A walk stays below its root: each path that it finds or opens lies
/// strictly below the root, and so do the frames it leaves.
pub proof fn lemma_scan_stays_under(root: Seq<Part>, fs: Seq<FrameView>)
    requires
        frames_under(root, fs),
    ensures
        frames_under(root, scan_next(fs).0),
        scan_next(fs).1 matches Scan::Found(p) ==> strictly_under(root, p),
        scan_next(fs).1 matches Scan::Open(p) ==> strictly_under(root, p),
    decreases fs.len(), if fs.len() > 0 {
        fs.last().1.len()
    } else {
        0
    },
{
    if fs.len() > 0 {
        let top = fs.last();
        if top.1.len() == 0 {
            lemma_scan_stays_under(root, fs.drop_last());
        } else {
            let e = top.1[0];
            let rest = fs.drop_last().push((top.0, top.1.skip(1)));
            let path = top.0.push(Part::Name(e.0));
            assert(is_prefix(root, fs[fs.len() - 1].0));
            assert(path.take(root.len() as int) =~= top.0.take(root.len() as int));
            assert(frames_under(root, rest));
            if e.1 == EntryKind::Other {
                lemma_scan_stays_under(root, rest);
            }
        }
    }
}

/// A walk over a directory tree that reports every file and symlink at any
/// depth, those of a directory before anything below it, and never opens a
/// symlink as a directory. The reading itself is
/// done by the caller, which hands over each directory's listing.
pub struct FilesUnfollowed {
    pub root: FsPath,
    pub frames: Vec<Frame>,
    /// The directory returned by `Open` and not yet entered.
    pub pending: Option<FsPath>,
}

impl FilesUnfollowed {
    pub open spec fn frames_view(&self) -> Seq<FrameView> {
        self.frames@.map_values(|f: Frame| f@)
    }

    pub open spec fn pending_view(&self) -> Option<Seq<Part>> {
        match self.pending {
            Some(p) => Some(p@),
            None => None,
        }
    }

    pub open spec fn wf(&self) -> bool {
        &&& forall|i: int|
            0 <= i < self.frames@.len() ==> #[trigger] self.frames@[i].next
                <= self.frames@[i].entries@.len()
        &&& frames_under(self.root@, self.frames_view())
        &&& self.pending matches Some(p) ==> strictly_under(self.root@, p@)
    }

    /// A walk that starts with the listing of `root`.
    pub fn new(root: FsPath, listing: Listing) -> (r: FilesUnfollowed)
        ensures
            r.wf(),
            r.root@ == root@,
            r.pending is None,
            r.frames_view() == seq![(root@, arranged(listing@))],
    {
        let dir = root.duplicate();
        let frame = Frame { dir, entries: listing.leaves_first(), next: 0 };
        let mut frames: Vec<Frame> = Vec::new();
        frames.push(frame);
        let r = FilesUnfollowed { root, frames, pending: None };
        proof {
            assert(frame@.1 =~= arranged(listing@));
            assert(r.frames_view() =~= seq![(root@, arranged(listing@))]);
            assert(root@.take(root@.len() as int) =~= root@);
        }
        r
    }

    /// Takes the walk one step further.
    pub fn next(&mut self) -> (r: ScanStep)
        requires
            old(self).wf(),
            old(self).pending is None,
        ensures
            final(self).wf(),
            final(self).root@ == old(self).root@,
            (final(self).frames_view(), r@) == scan_next(old(self).frames_view()),
            final(self).pending_view() == (match r@ {
                Scan::Open(p) => Some(p),
                _ => None,
            }),
            r@ matches Scan::Found(p) ==> strictly_under(old(self).root@, p),
    {
        loop
            invariant
                self.wf(),
                self.pending is None,
                self.root@ == old(self).root@,
                scan_next(self.frames_view()) == scan_next(old(self).frames_view()),
            decreases self.frames@.len(), if self.frames@.len() > 0 {
                self.frames_view().last().1.len()
            } else {
                0
            },
        {
            let ghost fs = self.frames_view();
            proof {
                lemma_scan_stays_under(self.root@, fs);
            }
            let top_opt = self.frames.pop();
            let mut top = match top_opt {
                Some(t) => t,
                None => {
                    proof {
                        assert(fs.len() == 0);
                    }
                    return ScanStep::Done;
                },
            };
            proof {
                assert(fs.last() == top@);
                assert(self.frames_view() =~= fs.drop_last());
                assert(forall|i: int|
                    0 <= i < self.frames_view().len() ==> self.frames_view()[i] == fs[i]);
            }
            if top.next >= top.entries.len() {
                proof {
                    assert(top@.1.len() == 0);
                }
                continue;
            }
            let name = top.entries[top.next].name.clone();
            let kind = top.entries[top.next].kind;
            let path = top.dir.child(Component::Normal(name));
            let ghost top_before = top@;
            top.next = top.next + 1;
            self.frames.push(top);
            proof {
                assert(top_before.1[0] == (name@, kind));
                assert(top@.1 =~= top_before.1.skip(1));
                assert(self.frames_view() =~= fs.drop_last().push((top_before.0, top_before.1.skip(1))));
                assert(forall|i: int|
                    0 <= i < self.frames_view().len() ==> self.frames_view()[i] == #[trigger] fs.drop_last().push((top_before.0, top_before.1.skip(1)))[i]);
            }
            proof {
                assert(scan_next(fs).0 == self.frames_view() || kind == EntryKind::Other);
                if kind == EntryKind::File || kind == EntryKind::Symlink {
                    assert(scan_next(fs).1 == Scan::Found(path@));
                } else if kind == EntryKind::Directory {
                    assert(scan_next(fs).1 == Scan::Open(path@));
                }
            }
            match kind {
                EntryKind::File => {
                    return ScanStep::Found(path);
                },
                EntryKind::Symlink => {
                    return ScanStep::Found(path);
                },
                EntryKind::Directory => {
                    self.pending = Some(path.duplicate());
                    return ScanStep::Open(path);
                },
                EntryKind::Other => {},
            }
        }
    }

    /// Hands over the listing of the directory that `next` asked to open;
    /// the walk goes on inside it.
    pub fn enter(&mut self, listing: Listing)
        requires
            old(self).wf(),
            old(self).pending is Some,
        ensures
            final(self).wf(),
            final(self).root@ == old(self).root@,
            final(self).pending is None,
            final(self).frames_view() == old(self).frames_view().push(
                (old(self).pending_view()->Some_0, arranged(listing@)),
            ),
    {
        let dir = self.pending.take().unwrap();
        let frame = Frame { dir, entries: listing.leaves_first(), next: 0 };
        let ghost fs = self.frames_view();
        self.frames.push(frame);
        proof {
            assert(frame@.1 =~= arranged(listing@));
            assert(self.frames_view() =~= fs.push(frame@));
        }
    }
}

} // verus!
