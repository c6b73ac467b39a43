use vstd::prelude::*;
use crate::geom::Pt;

verus! {

/// An owned closed polygon: an ordered sequence of vertices, with an implicit
/// edge from the last vertex back to the first.  The vertex order determines
/// the winding direction.
#[derive(Debug)]
pub struct Path {
    pub pts: Vec<Pt>,
}

impl PartialEq for Path {
    /// Two paths are equal when they hold the same vertices in the same
    /// order.
    fn eq(&self, other: &Path) -> (r: bool) {
        if self.pts.len() != other.pts.len() {
            return false;
        }
        let mut i: usize = 0;
        while i < self.pts.len()
            invariant
                0 <= i <= self.pts@.len(),
                self.pts@.len() == other.pts@.len(),
                forall|k: int| 0 <= k < i ==> self.pts@[k] == other.pts@[k],
            decreases self.pts@.len() - i,
        {
            let a = self.pts[i];
            let b = other.pts[i];
            if a.0 != b.0 || a.1 != b.1 {
                return false;
            }
            i = i + 1;
        }
        proof {
            assert(self.pts@ =~= other.pts@);
        }
        true
    }
}

impl vstd::std_specs::cmp::PartialEqSpecImpl for Path {
    open spec fn obeys_eq_spec() -> bool {
        true
    }

    open spec fn eq_spec(&self, other: &Path) -> bool {
        self.pts@ == other.pts@
    }
}

impl View for Path {
    type V = Seq<Pt>;

    open spec fn view(&self) -> Seq<Pt> {
        self.pts@
    }
}

impl From<Vec<Pt>> for Path {
    /// Builds an owned polygon from raw vertices, in the given order.
    fn from(verts: Vec<Pt>) -> (r: Path) {
        Path { pts: verts }
    }
}

impl vstd::std_specs::convert::FromSpecImpl<Vec<Pt>> for Path {
    open spec fn obeys_from_spec() -> bool {
        true
    }

    open spec fn from_spec(verts: Vec<Pt>) -> Path {
        Path { pts: verts }
    }
}

impl Path {
    /// The number of vertices.
    pub fn len(&self) -> (n: usize)
        ensures
            n == self@.len(),
    {
        self.pts.len()
    }

    /// The vertex at `index`, or `None` past the end.
    pub fn get(&self, index: usize) -> (r: Option<Pt>)
        ensures
            index < self@.len() ==> r == Some(self@[index as int]),
            index >= self@.len() ==> r is None,
    {
        if index >= self.pts.len() {
            None
        } else {
            Some(self.pts[index])
        }
    }

    /// A restartable cursor over the vertices.
    pub fn iter(&self) -> (it: PathIter<'_>)
        ensures
            it.inner@ == self@,
            it.index == 0,
    {
        PathIter { inner: PathRef { path: self }, index: 0 }
    }

    /// A borrowed view of this path.
    pub fn as_ref(&self) -> (r: PathRef<'_>)
        ensures
            r@ == self@,
    {
        PathRef { path: self }
    }
}

/// A non-owning view of a `Path` inside an owning collection.
pub struct PathRef<'a> {
    pub path: &'a Path,
}

impl<'a> Clone for PathRef<'a> {
    fn clone(&self) -> (r: Self)
        ensures
            r@ == self@,
    {
        PathRef { path: self.path }
    }
}

impl<'a> Copy for PathRef<'a> {

}

impl<'a> View for PathRef<'a> {
    type V = Seq<Pt>;

    open spec fn view(&self) -> Seq<Pt> {
        self.path@
    }
}

impl<'a> PathRef<'a> {
    /// The number of vertices.
    pub fn len(self) -> (n: usize)
        ensures
            n == self@.len(),
    {
        self.path.len()
    }

    /// The vertex at `index`, or `None` past the end.
    pub fn get(self, index: usize) -> (r: Option<Pt>)
        ensures
            index < self@.len() ==> r == Some(self@[index as int]),
            index >= self@.len() ==> r is None,
    {
        self.path.get(index)
    }

    /// A restartable cursor over the vertices.
    pub fn iter(self) -> (it: PathIter<'a>)
        ensures
            it.inner@ == self@,
            it.index == 0,
    {
        PathIter { inner: self, index: 0 }
    }
}

/// A cursor over the vertices of a path.
pub struct PathIter<'a> {
    pub inner: PathRef<'a>,
    pub index: usize,
}

impl<'a> PathIter<'a> {
    /// Yields the next vertex, left to right, and `None` past the end.
    pub fn next(&mut self) -> (r: Option<Pt>)
        ensures
            final(self).inner@ == old(self).inner@,
            old(self).index < old(self).inner@.len() ==> {
                &&& r == Some(old(self).inner@[old(self).index as int])
                &&& final(self).index == old(self).index + 1
            },
            old(self).index >= old(self).inner@.len() ==> {
                &&& r is None
                &&& final(self).index == old(self).index
            },
    {
        let n = self.inner.len();
        if self.index < n {
            let r = self.inner.get(self.index);
            self.index = self.index + 1;
            r
        } else {
            None
        }
    }
}

/// An owned, ordered collection of `Path` values.  Insertion order is kept.
pub struct Paths {
    pub items: Vec<Path>,
}

impl View for Paths {
    type V = Seq<Seq<Pt>>;

    open spec fn view(&self) -> Seq<Seq<Pt>> {
        Seq::new(self.items@.len(), |i: int| self.items@[i]@)
    }
}

impl From<Vec<Path>> for Paths {
    /// Takes ownership of each path, in the given order.
    fn from(paths: Vec<Path>) -> (r: Paths) {
        Paths { items: paths }
    }
}

impl vstd::std_specs::convert::FromSpecImpl<Vec<Path>> for Paths {
    open spec fn obeys_from_spec() -> bool {
        true
    }

    open spec fn from_spec(paths: Vec<Path>) -> Paths {
        Paths { items: paths }
    }
}

impl Paths {
    /// The number of paths.
    pub fn len(&self) -> (n: usize)
        ensures
            n == self@.len(),
    {
        self.items.len()
    }

    /// A borrowed view of the path at `index`, or `None` past the end.
    pub fn get(&self, index: usize) -> (r: Option<PathRef<'_>>)
        ensures
            index < self@.len() ==> (r matches Some(p) && p@ == self@[index as int]),
            index >= self@.len() ==> r is None,
    {
        if index >= self.items.len() {
            None
        } else {
            Some(PathRef { path: &self.items[index] })
        }
    }

    /// A restartable cursor over the paths.
    pub fn iter(&self) -> (it: PathsIter<'_>)
        ensures
            it.inner@ == self@,
            it.index == 0,
    {
        PathsIter { inner: self, index: 0 }
    }
}

/// A cursor over the paths of a collection.
pub struct PathsIter<'a> {
    pub inner: &'a Paths,
    pub index: usize,
}

impl<'a> PathsIter<'a> {
    /// Yields a view of the next path, and `None` past the end.
    pub fn next(&mut self) -> (r: Option<PathRef<'a>>)
        ensures
            final(self).inner@ == old(self).inner@,
            old(self).index < old(self).inner@.len() ==> {
                &&& (r matches Some(p) && p@ == old(self).inner@[old(self).index as int])
                &&& final(self).index == old(self).index + 1
            },
            old(self).index >= old(self).inner@.len() ==> {
                &&& r is None
                &&& final(self).index == old(self).index
            },
    {
        let n = self.inner.len();
        if self.index < n {
            let r = self.inner.get(self.index);
            self.index = self.index + 1;
            r
        } else {
            None
        }
    }
}

/// Selects the winding-count predicate that decides which regions of the
/// plane belong to the result of `execute`.
#[derive(Clone, Copy, PartialEq, Eq, Structural)]
pub enum Operation {
    /// Points inside both the subject and the clip set.
    Intersection,
    /// Points inside at least one of the two sets.
    Union,
    /// Points inside the subject set but not the clip set.
    Difference,
    /// Points inside exactly one of the two sets.
    Xor,
}

/// Corner synthesis style for the offset engine.  Fractional parameters are
/// carried in thousandths of a coordinate unit, keeping the engine free of
/// floating point.
#[derive(Clone, Copy, PartialEq, Eq, Structural)]
pub enum JoinType {
    /// Extend the displaced edges to their intersection, unless it lies
    /// farther from the vertex than `limit_milli / 1000` times the offset
    /// delta, in which case fall back to the square join.
    Miter { limit_milli: u64 },
    /// Approximate the corner arc; an intermediate arc vertex is emitted only
    /// when the direct connection would deviate from the true arc by more
    /// than `tolerance_milli / 1000` coordinate units.
    Round { tolerance_milli: u64 },
    /// Connect the two displaced edge endpoints directly.
    Square,
}

/// Recommended miter limit: 2.0, in thousandths.
pub const DEFAULT_MITER_LIMIT_MILLI: u64 = 2000;

/// Recommended arc tolerance: 0.25 coordinate units, in thousandths.
pub const DEFAULT_ARC_TOLERANCE_MILLI: u64 = 250;

} // verus!
