use vstd::prelude::*;

use crate::path::{Component, Part};

verus! {

/// The type of a directory entry, as read without following a symlink.
#[derive(Debug, Clone, Copy, PartialEq, Eq, Structural)]
pub enum EntryKind {
    File,
    Symlink,
    Directory,
    Other,
}

/// An entry that counts as content of its own: a file or a symlink.
pub open spec fn is_leaf(k: EntryKind) -> bool {
    k == EntryKind::File || k == EntryKind::Symlink
}

/// One entry of a directory: its name and its type.
pub struct DirEntry {
    pub name: String,
    pub kind: EntryKind,
}

impl View for DirEntry {
    type V = (Seq<char>, EntryKind);

    open spec fn view(&self) -> (Seq<char>, EntryKind) {
        (self.name@, self.kind)
    }
}

/// The direct entries of one directory.
pub struct Listing {
    pub entries: Vec<DirEntry>,
}

impl View for Listing {
    type V = Seq<(Seq<char>, EntryKind)>;

    open spec fn view(&self) -> Seq<(Seq<char>, EntryKind)> {
        self.entries@.map_values(|e: DirEntry| e@)
    }
}

/// Whether a directory holds, among its direct entries, a file or a symlink
/// (a subdirectory does not count).
pub trait ContainsDirectory {
    spec fn holds_leaf(&self) -> bool;

    fn contains_file_symlink_in_directory(&self) -> (r: bool)
        ensures
            r == self.holds_leaf(),
    ;
}

impl ContainsDirectory for Listing {
    open spec fn holds_leaf(&self) -> bool {
        exists|i: int| 0 <= i < self@.len() && is_leaf(#[trigger] self@[i].1)
    }

    fn contains_file_symlink_in_directory(&self) -> (r: bool) {
        let mut i: usize = 0;
        while i < self.entries.len()
            invariant
                0 <= i <= self@.len(),
                self@.len() == self.entries@.len(),
                forall|j: int| 0 <= j < i ==> !is_leaf(#[trigger] self@[j].1),
            decreases self@.len() - i,
        {
            let kind = self.entries[i].kind;
            proof {
                assert(self@[i as int].1 == kind);
            }
            if kind == EntryKind::File || kind == EntryKind::Symlink {
                return true;
            }
            i = i + 1;
        }
        false
    }
}

/// A listing that holds one entry alone: the subdirectory `next`.
pub open spec fn holds_only(l: Seq<(Seq<char>, EntryKind)>, next: Part) -> bool {
    l.len() == 1 && l[0].1 == EntryKind::Directory && next == Part::Name(l[0].0)
}

impl Listing {
    /// Whether the directory holds nothing but the subdirectory `next`: no
    /// file, no symlink, no other entry.
    pub fn holds_only(&self, next: &Component) -> (r: bool)
        ensures
            r == holds_only(self@, next@),
    {
        if self.entries.len() != 1 || self.entries[0].kind != EntryKind::Directory {
            return false;
        }
        match next {
            Component::Normal(name) => name.eq(&self.entries[0].name),
            _ => false,
        }
    }
}

pub open spec fn entries_view(v: Seq<DirEntry>) -> Seq<(Seq<char>, EntryKind)> {
    v.map_values(|e: DirEntry| e@)
}

/// The files and symlinks of a listing, in their order.
pub open spec fn leaves_of(l: Seq<(Seq<char>, EntryKind)>) -> Seq<(Seq<char>, EntryKind)> {
    l.filter(|e: (Seq<char>, EntryKind)| is_leaf(e.1))
}

/// The other entries of a listing, in their order.
pub open spec fn others_of(l: Seq<(Seq<char>, EntryKind)>) -> Seq<(Seq<char>, EntryKind)> {
    l.filter(|e: (Seq<char>, EntryKind)| !is_leaf(e.1))
}

/// A listing with its files and symlinks first, then the other entries,
/// each part in the order of the listing.
pub open spec fn arranged(l: Seq<(Seq<char>, EntryKind)>) -> Seq<(Seq<char>, EntryKind)> {
    leaves_of(l) + others_of(l)
}

/// In an arranged listing no file or symlink comes after another entry.
pub proof fn lemma_arranged_leaves_lead(l: Seq<(Seq<char>, EntryKind)>)
    ensures
        forall|i: int, j: int|
            0 <= i < j < arranged(l).len() && is_leaf(#[trigger] arranged(l)[j].1) ==> is_leaf(
                #[trigger] arranged(l)[i].1,
            ),
{
    broadcast use vstd::seq_lib::group_filter_ensures;

    let a = leaves_of(l);
    let b = others_of(l);
    assert forall|i: int, j: int|
        0 <= i < j < arranged(l).len() && is_leaf(#[trigger] arranged(l)[j].1) implies is_leaf(
            #[trigger] arranged(l)[i].1,
        ) by {
        if j >= a.len() {
            assert(arranged(l)[j] == b[j - a.len()]);
        }
        assert(arranged(l)[i] == a[i]);
    }
}

impl DirEntry {
    pub fn duplicate(&self) -> (r: DirEntry)
        ensures
            r@ == self@,
    {
        DirEntry { name: self.name.clone(), kind: self.kind }
    }
}

impl Listing {
    /// The entries with the files and symlinks first.
    pub fn leaves_first(&self) -> (r: Vec<DirEntry>)
        ensures
            entries_view(r@) == arranged(self@),
    {
        let ghost l = self@;
        let mut out: Vec<DirEntry> = Vec::new();
        let mut i: usize = 0;
        proof {
            assert(l.take(0) =~= Seq::<(Seq<char>, EntryKind)>::empty());
            reveal(Seq::filter);
            assert(entries_view(out@) =~= leaves_of(l.take(0)));
        }
        while i < self.entries.len()
            invariant
                l == self@,
                l.len() == self.entries@.len(),
                0 <= i <= l.len(),
                entries_view(out@) == leaves_of(l.take(i as int)),
            decreases l.len() - i,
        {
            let e = self.entries[i].duplicate();
            let ghost before = entries_view(out@);
            proof {
                assert(l.take(i + 1).drop_last() =~= l.take(i as int));
                assert(l.take(i + 1).last() == e@);
                assert(l.take(i + 1) =~= l.take(i as int).push(e@));
                l.take(i as int).lemma_filter_push(e@, |e: (Seq<char>, EntryKind)| is_leaf(e.1));
                assert(leaves_of(l.take(i + 1)) == if is_leaf(e@.1) {
                    leaves_of(l.take(i as int)).push(e@)
                } else {
                    leaves_of(l.take(i as int))
                });
            }
            if e.kind == EntryKind::File || e.kind == EntryKind::Symlink {
                out.push(e);
                proof {
                    assert(entries_view(out@) =~= before.push(e@));
                }
            }
            i = i + 1;
        }
        proof {
            assert(l.take(i as int) =~= l);
        }
        let ghost lead = entries_view(out@);
        let mut i: usize = 0;
        proof {
            assert(l.take(0) =~= Seq::<(Seq<char>, EntryKind)>::empty());
            reveal(Seq::filter);
            assert(entries_view(out@) =~= lead + others_of(l.take(0)));
        }
        while i < self.entries.len()
            invariant
                l == self@,
                l.len() == self.entries@.len(),
                lead == leaves_of(l),
                0 <= i <= l.len(),
                entries_view(out@) == lead + others_of(l.take(i as int)),
            decreases l.len() - i,
        {
            let e = self.entries[i].duplicate();
            let ghost before = entries_view(out@);
            proof {
                assert(l.take(i + 1).drop_last() =~= l.take(i as int));
                assert(l.take(i + 1).last() == e@);
                assert(l.take(i + 1) =~= l.take(i as int).push(e@));
                l.take(i as int).lemma_filter_push(e@, |e: (Seq<char>, EntryKind)| !is_leaf(e.1));
                assert(others_of(l.take(i + 1)) == if !is_leaf(e@.1) {
                    others_of(l.take(i as int)).push(e@)
                } else {
                    others_of(l.take(i as int))
                });
            }
            if !(e.kind == EntryKind::File || e.kind == EntryKind::Symlink) {
                out.push(e);
                proof {
                    assert(entries_view(out@) =~= before.push(e@));
                    assert(lead + others_of(l.take(i + 1)) =~= (lead + others_of(l.take(i as int))).push(e@));
                }
            }
            i = i + 1;
        }
        proof {
            assert(l.take(i as int) =~= l);
        }
        out
    }
}

} // verus!
