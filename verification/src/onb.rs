//! An orthonormal basis, kept as its three axes.

use vstd::prelude::*;

verus! {

/// An orthonormal basis with axes `u`, `v` and `w` (the normal).
pub struct ONB<V> {
    axis: [V; 3],
}

impl<V> ONB<V> {
    /// The axes `u`, `v`, `w`, in that order.
    pub closed spec fn axes(&self) -> Seq<V> {
        self.axis@
    }

    /// The basis with the given axes.
    pub fn from_axes(u: V, v: V, w: V) -> (onb: Self)
        ensures
            onb.axes() == seq![u, v, w],
    {
        let onb = ONB { axis: [u, v, w] };
        proof {
            assert(onb.axis@ =~= seq![u, v, w]);
        }
        onb
    }

    pub fn u(&self) -> (u: &V)
        ensures
            *u == self.axes()[0],
    {
        &self.axis[0]
    }

    pub fn v(&self) -> (v: &V)
        ensures
            *v == self.axes()[1],
    {
        &self.axis[1]
    }

    pub fn w(&self) -> (w: &V)
        ensures
            *w == self.axes()[2],
    {
        &self.axis[2]
    }
}

} // verus!
