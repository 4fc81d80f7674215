//! A tensor: host storage viewed through a [`Layout`].
use vstd::prelude::*;
use crate::dim::Extent;
use crate::shape::Extents;
use crate::layout::{Layout, ivals};

verus! {

/// A layout a tensor can be indexed through: its shape, and the memory index of each
/// coordinate.
pub trait TensorLayout {
    /// The dimensions of the shape.
    spec fn spec_shape(&self) -> Seq<Extent>;

    /// Whether `crd` names one index per dimension and its memory index fits in `usize`.
    spec fn spec_indexable(&self, crd: Seq<usize>) -> bool;

    /// The memory index of coordinate `crd`.
    spec fn spec_index(&self, crd: Seq<usize>) -> int;

    /// The shape.
    fn shape_coord(&self) -> (r: Extents)
        ensures
            r@ == self.spec_shape(),
    ;

    /// The memory index of coordinate `crd`.
    fn crd2idx(&self, crd: &[usize]) -> (r: usize)
        requires
            self.spec_indexable(crd@),
        ensures
            r == self.spec_index(crd@),
    ;
}

impl TensorLayout for Layout {
    open spec fn spec_shape(&self) -> Seq<Extent> {
        self.shape@
    }

    open spec fn spec_indexable(&self, crd: Seq<usize>) -> bool {
        &&& self.wf()
        &&& crd.len() == self.stride@.len()
        &&& self.spec_crd2idx(ivals(crd)) <= usize::MAX
    }

    open spec fn spec_index(&self, crd: Seq<usize>) -> int {
        self.spec_crd2idx(ivals(crd))
    }

    fn shape_coord(&self) -> (r: Extents) {
        Layout::shape_coord(self)
    }

    fn crd2idx(&self, crd: &[usize]) -> (r: usize) {
        Layout::crd2idx(self, crd)
    }
}

/// Host storage indexed by coordinate through a layout: element `crd` lives at
/// `storage[layout.crd2idx(crd)]`.
pub struct TileTensor<T> {
    storage: Vec<T>,
    layout: Layout,
}

impl<T> TileTensor<T> {
    /// The elements, in memory order.
    pub closed spec fn spec_storage(&self) -> Seq<T> {
        self.storage@
    }

    /// The layout the elements are indexed through.
    pub closed spec fn spec_layout(&self) -> Layout {
        self.layout
    }

    /// The memory index of coordinate `crd`, when it can be reached without overflow.
    pub open spec fn spec_index_of(&self, crd: Seq<usize>) -> int {
        self.spec_layout().spec_crd2idx(ivals(crd))
    }

    /// Whether `crd` addresses an element of the storage.
    pub open spec fn addresses(&self, crd: Seq<usize>) -> bool {
        &&& crd.len() == self.spec_layout().stride@.len()
        &&& self.spec_index_of(crd) < self.spec_storage().len()
    }

    /// Views `storage` through `layout`.
    pub fn new(storage: Vec<T>, layout: Layout) -> (r: Self)
        requires
            layout.wf(),
        ensures
            r.spec_storage() == storage@,
            r.spec_layout() == layout,
            r.spec_layout().wf(),
    {
        TileTensor { storage, layout }
    }

    /// This tensor, by reference.
    pub fn as_ref(&self) -> (r: &Self)
        ensures
            r == self,
    {
        self
    }

    /// The elements, in memory order.
    pub fn storage(&self) -> (r: &Vec<T>)
        ensures
            r@ == self.spec_storage(),
    {
        &self.storage
    }

    /// The layout the elements are indexed through.
    pub fn layout(&self) -> (r: Layout)
        ensures
            r.shape@ == self.spec_layout().shape@,
            r.stride@ == self.spec_layout().stride@,
    {
        Layout { shape: self.layout.shape_coord(), stride: self.layout.stride_coord() }
    }

    /// The extent of dimension `i`.
    pub fn dim(&self, i: usize) -> (r: usize)
        requires
            i < self.spec_layout().shape@.len(),
        ensures
            r == self.spec_layout().shape@[i as int].value,
    {
        self.layout.shape.get(i)
    }

    /// Dimension `i` of the shape, with whether it is static.
    pub fn dim_at(&self, i: usize) -> (r: Extent)
        requires
            i < self.spec_layout().shape@.len(),
        ensures
            r == self.spec_layout().shape@[i as int],
    {
        self.layout.shape_dim(i)
    }

    /// The element at coordinate `crd`.
    pub fn at(&self, crd: &[usize]) -> (r: &T)
        requires
            self.spec_layout().wf(),
            self.addresses(crd@),
        ensures
            *r == self.spec_storage()[self.spec_index_of(crd@)],
    {
        let _n = self.storage.len();
        let i = self.layout.crd2idx(crd);
        &self.storage[i]
    }

    /// Replaces the element at coordinate `crd`.
    pub fn set(&mut self, crd: &[usize], value: T)
        requires
            old(self).spec_layout().wf(),
            old(self).addresses(crd@),
        ensures
            final(self).spec_layout() == old(self).spec_layout(),
            final(self).spec_storage() == old(self).spec_storage().update(
                old(self).spec_index_of(crd@),
                value,
            ),
    {
        let _n = self.storage.len();
        let i = self.layout.crd2idx(crd);
        self.storage.set(i, value);
    }
}

} // verus!
