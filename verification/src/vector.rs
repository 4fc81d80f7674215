//! Small integer vectors laid out as shaders see them.
use vstd::prelude::*;
use crate::shader_type::{ScalarKind, TypeLayout};

verus! {

/// 2 `i32` components.
#[derive(Debug, Clone, Copy, PartialEq, Eq)]
pub struct Int2 {
    elements: [i32; 2],
}

impl Int2 {
    pub closed spec fn spec_elements(&self) -> Seq<i32> {
        self.elements@
    }

    pub fn new(x: i32, y: i32) -> (r: Self)
        ensures
            r.spec_elements().len() == 2,
            r.spec_elements()[0] == x,
            r.spec_elements()[1] == y,
    {
        Int2 { elements: [x, y] }
    }

    /// Every component set to `value`.
    pub fn splat(value: i32) -> (r: Self)
        ensures
            r.spec_elements() == Seq::new(2, |i: int| value),
    {
        let r = Int2 { elements: [value, value] };
        assert(r.elements@ =~= Seq::new(2, |i: int| value));
        r
    }

    pub fn x(&self) -> (r: i32)
        ensures
            r == self.spec_elements()[0],
    {
        self.elements[0]
    }

    pub fn y(&self) -> (r: i32)
        ensures
            r == self.spec_elements()[1],
    {
        self.elements[1]
    }

    /// The components, in order.
    pub fn as_array(&self) -> (r: [i32; 2])
        ensures
            r@ == self.spec_elements(),
    {
        self.elements
    }

    /// The vector with the given components.
    pub fn from_array(elements: [i32; 2]) -> (r: Self)
        ensures
            r.spec_elements() == elements@,
    {
        Int2 { elements }
    }

    /// How shaders see this type: a vector of 2 `Int32`.
    pub fn type_layout() -> (r: TypeLayout)
        ensures
            r == (TypeLayout::Vector { element_type: ScalarKind::Int32, element_count: 2 }),
    {
        TypeLayout::Vector { element_type: ScalarKind::Int32, element_count: 2 }
    }
}

/// 3 `i32` components.
#[derive(Debug, Clone, Copy, PartialEq, Eq)]
pub struct Int3 {
    elements: [i32; 3],
}

impl Int3 {
    pub closed spec fn spec_elements(&self) -> Seq<i32> {
        self.elements@
    }

    pub fn new(x: i32, y: i32, z: i32) -> (r: Self)
        ensures
            r.spec_elements().len() == 3,
            r.spec_elements()[0] == x,
            r.spec_elements()[1] == y,
            r.spec_elements()[2] == z,
    {
        Int3 { elements: [x, y, z] }
    }

    /// Every component set to `value`.
    pub fn splat(value: i32) -> (r: Self)
        ensures
            r.spec_elements() == Seq::new(3, |i: int| value),
    {
        let r = Int3 { elements: [value, value, value] };
        assert(r.elements@ =~= Seq::new(3, |i: int| value));
        r
    }

    pub fn x(&self) -> (r: i32)
        ensures
            r == self.spec_elements()[0],
    {
        self.elements[0]
    }

    pub fn y(&self) -> (r: i32)
        ensures
            r == self.spec_elements()[1],
    {
        self.elements[1]
    }

    pub fn z(&self) -> (r: i32)
        ensures
            r == self.spec_elements()[2],
    {
        self.elements[2]
    }

    /// The components, in order.
    pub fn as_array(&self) -> (r: [i32; 3])
        ensures
            r@ == self.spec_elements(),
    {
        self.elements
    }

    /// The vector with the given components.
    pub fn from_array(elements: [i32; 3]) -> (r: Self)
        ensures
            r.spec_elements() == elements@,
    {
        Int3 { elements }
    }

    /// How shaders see this type: a vector of 3 `Int32`.
    pub fn type_layout() -> (r: TypeLayout)
        ensures
            r == (TypeLayout::Vector { element_type: ScalarKind::Int32, element_count: 3 }),
    {
        TypeLayout::Vector { element_type: ScalarKind::Int32, element_count: 3 }
    }
}

/// 4 `i32` components.
#[derive(Debug, Clone, Copy, PartialEq, Eq)]
pub struct Int4 {
    elements: [i32; 4],
}

impl Int4 {
    pub closed spec fn spec_elements(&self) -> Seq<i32> {
        self.elements@
    }

    pub fn new(x: i32, y: i32, z: i32, w: i32) -> (r: Self)
        ensures
            r.spec_elements().len() == 4,
            r.spec_elements()[0] == x,
            r.spec_elements()[1] == y,
            r.spec_elements()[2] == z,
            r.spec_elements()[3] == w,
    {
        Int4 { elements: [x, y, z, w] }
    }

    /// Every component set to `value`.
    pub fn splat(value: i32) -> (r: Self)
        ensures
            r.spec_elements() == Seq::new(4, |i: int| value),
    {
        let r = Int4 { elements: [value, value, value, value] };
        assert(r.elements@ =~= Seq::new(4, |i: int| value));
        r
    }

    pub fn x(&self) -> (r: i32)
        ensures
            r == self.spec_elements()[0],
    {
        self.elements[0]
    }

    pub fn y(&self) -> (r: i32)
        ensures
            r == self.spec_elements()[1],
    {
        self.elements[1]
    }

    pub fn z(&self) -> (r: i32)
        ensures
            r == self.spec_elements()[2],
    {
        self.elements[2]
    }

    pub fn w(&self) -> (r: i32)
        ensures
            r == self.spec_elements()[3],
    {
        self.elements[3]
    }

    /// The components, in order.
    pub fn as_array(&self) -> (r: [i32; 4])
        ensures
            r@ == self.spec_elements(),
    {
        self.elements
    }

    /// The vector with the given components.
    pub fn from_array(elements: [i32; 4]) -> (r: Self)
        ensures
            r.spec_elements() == elements@,
    {
        Int4 { elements }
    }

    /// How shaders see this type: a vector of 4 `Int32`.
    pub fn type_layout() -> (r: TypeLayout)
        ensures
            r == (TypeLayout::Vector { element_type: ScalarKind::Int32, element_count: 4 }),
    {
        TypeLayout::Vector { element_type: ScalarKind::Int32, element_count: 4 }
    }
}

/// 2 `u32` components.
#[derive(Debug, Clone, Copy, PartialEq, Eq)]
pub struct UInt2 {
    elements: [u32; 2],
}

impl UInt2 {
    pub closed spec fn spec_elements(&self) -> Seq<u32> {
        self.elements@
    }

    pub fn new(x: u32, y: u32) -> (r: Self)
        ensures
            r.spec_elements().len() == 2,
            r.spec_elements()[0] == x,
            r.spec_elements()[1] == y,
    {
        UInt2 { elements: [x, y] }
    }

    /// Every component set to `value`.
    pub fn splat(value: u32) -> (r: Self)
        ensures
            r.spec_elements() == Seq::new(2, |i: int| value),
    {
        let r = UInt2 { elements: [value, value] };
        assert(r.elements@ =~= Seq::new(2, |i: int| value));
        r
    }

    pub fn x(&self) -> (r: u32)
        ensures
            r == self.spec_elements()[0],
    {
        self.elements[0]
    }

    pub fn y(&self) -> (r: u32)
        ensures
            r == self.spec_elements()[1],
    {
        self.elements[1]
    }

    /// The components, in order.
    pub fn as_array(&self) -> (r: [u32; 2])
        ensures
            r@ == self.spec_elements(),
    {
        self.elements
    }

    /// The vector with the given components.
    pub fn from_array(elements: [u32; 2]) -> (r: Self)
        ensures
            r.spec_elements() == elements@,
    {
        UInt2 { elements }
    }

    /// How shaders see this type: a vector of 2 `UInt32`.
    pub fn type_layout() -> (r: TypeLayout)
        ensures
            r == (TypeLayout::Vector { element_type: ScalarKind::UInt32, element_count: 2 }),
    {
        TypeLayout::Vector { element_type: ScalarKind::UInt32, element_count: 2 }
    }
}

/// 3 `u32` components.
#[derive(Debug, Clone, Copy, PartialEq, Eq)]
pub struct UInt3 {
    elements: [u32; 3],
}

impl UInt3 {
    pub closed spec fn spec_elements(&self) -> Seq<u32> {
        self.elements@
    }

    pub fn new(x: u32, y: u32, z: u32) -> (r: Self)
        ensures
            r.spec_elements().len() == 3,
            r.spec_elements()[0] == x,
            r.spec_elements()[1] == y,
            r.spec_elements()[2] == z,
    {
        UInt3 { elements: [x, y, z] }
    }

    /// Every component set to `value`.
    pub fn splat(value: u32) -> (r: Self)
        ensures
            r.spec_elements() == Seq::new(3, |i: int| value),
    {
        let r = UInt3 { elements: [value, value, value] };
        assert(r.elements@ =~= Seq::new(3, |i: int| value));
        r
    }

    pub fn x(&self) -> (r: u32)
        ensures
            r == self.spec_elements()[0],
    {
        self.elements[0]
    }

    pub fn y(&self) -> (r: u32)
        ensures
            r == self.spec_elements()[1],
    {
        self.elements[1]
    }

    pub fn z(&self) -> (r: u32)
        ensures
            r == self.spec_elements()[2],
    {
        self.elements[2]
    }

    /// The components, in order.
    pub fn as_array(&self) -> (r: [u32; 3])
        ensures
            r@ == self.spec_elements(),
    {
        self.elements
    }

    /// The vector with the given components.
    pub fn from_array(elements: [u32; 3]) -> (r: Self)
        ensures
            r.spec_elements() == elements@,
    {
        UInt3 { elements }
    }

    /// How shaders see this type: a vector of 3 `UInt32`.
    pub fn type_layout() -> (r: TypeLayout)
        ensures
            r == (TypeLayout::Vector { element_type: ScalarKind::UInt32, element_count: 3 }),
    {
        TypeLayout::Vector { element_type: ScalarKind::UInt32, element_count: 3 }
    }
}

/// 4 `u32` components.
#[derive(Debug, Clone, Copy, PartialEq, Eq)]
pub struct UInt4 {
    elements: [u32; 4],
}

impl UInt4 {
    pub closed spec fn spec_elements(&self) -> Seq<u32> {
        self.elements@
    }

    pub fn new(x: u32, y: u32, z: u32, w: u32) -> (r: Self)
        ensures
            r.spec_elements().len() == 4,
            r.spec_elements()[0] == x,
            r.spec_elements()[1] == y,
            r.spec_elements()[2] == z,
            r.spec_elements()[3] == w,
    {
        UInt4 { elements: [x, y, z, w] }
    }

    /// Every component set to `value`.
    pub fn splat(value: u32) -> (r: Self)
        ensures
            r.spec_elements() == Seq::new(4, |i: int| value),
    {
        let r = UInt4 { elements: [value, value, value, value] };
        assert(r.elements@ =~= Seq::new(4, |i: int| value));
        r
    }

    pub fn x(&self) -> (r: u32)
        ensures
            r == self.spec_elements()[0],
    {
        self.elements[0]
    }

    pub fn y(&self) -> (r: u32)
        ensures
            r == self.spec_elements()[1],
    {
        self.elements[1]
    }

    pub fn z(&self) -> (r: u32)
        ensures
            r == self.spec_elements()[2],
    {
        self.elements[2]
    }

    pub fn w(&self) -> (r: u32)
        ensures
            r == self.spec_elements()[3],
    {
        self.elements[3]
    }

    /// The components, in order.
    pub fn as_array(&self) -> (r: [u32; 4])
        ensures
            r@ == self.spec_elements(),
    {
        self.elements
    }

    /// The vector with the given components.
    pub fn from_array(elements: [u32; 4]) -> (r: Self)
        ensures
            r.spec_elements() == elements@,
    {
        UInt4 { elements }
    }

    /// How shaders see this type: a vector of 4 `UInt32`.
    pub fn type_layout() -> (r: TypeLayout)
        ensures
            r == (TypeLayout::Vector { element_type: ScalarKind::UInt32, element_count: 4 }),
    {
        TypeLayout::Vector { element_type: ScalarKind::UInt32, element_count: 4 }
    }
}

} // verus!
