use vstd::prelude::*;

use crate::path::{is_absolute, Component, FsPath, Part};

verus! {

/// Why a relative path could not be formed.
#[derive(Debug, Clone, Copy, PartialEq, Eq)]
pub enum RelativeError {
    NotAbsolute,
}

/// How many leading components `from` and `to` have in common.
pub open spec fn matched(from: Seq<Part>, to: Seq<Part>) -> nat
    decreases from.len(),
{
    if from.len() == 0 || to.len() == 0 || from[0] != to[0] {
        0
    } else {
        1 + matched(from.skip(1), to.skip(1))
    }
}

/// `k` parent components.
pub open spec fn parents(k: nat) -> Seq<Part> {
    Seq::new(k, |i: int| Part::Parent)
}

/// The path from `from` to `to`: one parent step for each component of
/// `from` past the prefix the two have in common, a current-directory
/// component where there is none, then the rest of `to` past that prefix.
pub open spec fn relative_of(from: Seq<Part>, to: Seq<Part>) -> Seq<Part> {
    let m = matched(from, to);
    let k = (from.len() - m) as nat;
    parents(k) + (if k == 0 {
        seq![Part::Cur]
    } else {
        Seq::empty()
    }) + to.skip(m as int)
}

/// A path relative to another one.
pub trait RelativePath: Sized + View<V = Seq<Part>> {
    fn relative(&self, to: &Self) -> (r: Result<Self, RelativeError>)
        ensures
            r is Ok <==> (is_absolute(self@) && is_absolute(to@)),
            r is Ok ==> r->Ok_0@ == relative_of(self@, to@),
    ;
}

impl RelativePath for FsPath {
    fn relative(&self, to: &FsPath) -> (r: Result<FsPath, RelativeError>) {
        if !self.is_absolute() || !to.is_absolute() {
            return Err(RelativeError::NotAbsolute);
        }
        let ghost l = self@;
        let ghost rt = to@;
        let mut buffer = FsPath { components: Vec::new() };
        let mut j: usize = 0;
        proof {
            assert(l.skip(0) =~= l);
            assert(rt.skip(0) =~= rt);
        }
        while j < self.components.len() && j < to.components.len() && self.components[j].same(
            &to.components[j],
        )
            invariant
                l == self@,
                rt == to@,
                j <= l.len(),
                j <= rt.len(),
                j + matched(l.skip(j as int), rt.skip(j as int)) == matched(l, rt),
            decreases l.len() - j,
        {
            proof {
                assert(l.skip(j as int).skip(1) =~= l.skip(j + 1));
                assert(rt.skip(j as int).skip(1) =~= rt.skip(j + 1));
                assert(l.skip(j as int)[0] == l[j as int]);
                assert(rt.skip(j as int)[0] == rt[j as int]);
            }
            j = j + 1;
        }
        proof {
            if j < l.len() && j < rt.len() {
                assert(l.skip(j as int)[0] == l[j as int]);
                assert(rt.skip(j as int)[0] == rt[j as int]);
            }
            assert(matched(l, rt) == j);
        }
        let mut i: usize = j;
        proof {
            assert(buffer@ =~= parents(0));
        }
        while i < self.components.len()
            invariant
                l == self@,
                j <= i <= l.len(),
                buffer@ == parents((i - j) as nat),
            decreases l.len() - i,
        {
            let ghost before = buffer@;
            buffer.components.push(Component::ParentDir);
            proof {
                assert(buffer@ =~= before.push(Part::Parent));
                assert(buffer@ =~= parents((i + 1 - j) as nat));
            }
            i = i + 1;
        }
        let ghost k = (l.len() - j) as nat;
        if i == j {
            buffer.components.push(Component::CurDir);
        }
        let ghost head = buffer@;
        proof {
            assert(head =~= parents(k) + (if k == 0 {
                seq![Part::Cur]
            } else {
                Seq::empty()
            }));
            assert(buffer@ =~= head + rt.subrange(j as int, j as int));
        }
        let mut n: usize = j;
        while n < to.components.len()
            invariant
                rt == to@,
                j <= n <= rt.len(),
                buffer@ == head + rt.subrange(j as int, n as int),
            decreases rt.len() - n,
        {
            let ghost before = buffer@;
            let c = to.components[n].duplicate();
            buffer.components.push(c);
            proof {
                assert(buffer@ =~= before.push(c@));
                assert(rt.subrange(j as int, n + 1) =~= rt.subrange(j as int, n as int).push(
                    rt[n as int],
                ));
            }
            n = n + 1;
        }
        proof {
            assert(rt.subrange(j as int, rt.len() as int) =~= rt.skip(j as int));
        }
        Ok(buffer)
    }
}

} // verus!
