//! What the window system records of one window.

use vstd::prelude::*;
use crate::table::Keyed;

verus! {

/// Outer position and size of a window. Each field holds the IEEE-754 bit
/// pattern of the `f64` the windowing layer reports, so that a value is
/// kept and compared exactly as it was captured.
#[derive(Clone, Copy, Debug, PartialEq, Eq, Structural)]
pub struct WindowGeometry {
    pub x: u64,
    pub y: u64,
    pub width: u64,
    pub height: u64,
}

/// One registered window.
#[derive(Clone, Debug, PartialEq)]
pub struct WindowDescriptor {
    pub label: String,
    pub url: String,
    pub parent: Option<String>,
    pub title: Option<String>,
    pub geometry: Option<WindowGeometry>,
}

/// A descriptor as plain values.
pub struct DescriptorView {
    pub label: Seq<char>,
    pub url: Seq<char>,
    pub parent: Option<Seq<char>>,
    pub title: Option<Seq<char>>,
    pub geometry: Option<WindowGeometry>,
}

impl View for WindowDescriptor {
    type V = DescriptorView;

    open spec fn view(&self) -> DescriptorView {
        DescriptorView {
            label: self.label@,
            url: self.url@,
            parent: self.parent.deep_view(),
            title: self.title.deep_view(),
            geometry: self.geometry,
        }
    }
}

impl Keyed for WindowDescriptor {
    open spec fn key_of(&self) -> Seq<char> {
        self.label@
    }

    fn key(&self) -> (r: &str) {
        self.label.as_str()
    }
}

/// A copy of an optional text.
pub fn copy_text(t: &Option<String>) -> (r: Option<String>)
    ensures
        r.deep_view() == t.deep_view(),
{
    match t {
        Some(s) => Some(s.clone()),
        None => None,
    }
}

/// Whether two optional texts are equal.
pub fn same_text(a: &Option<String>, b: &Option<String>) -> (r: bool)
    ensures
        r == (a.deep_view() == b.deep_view()),
{
    match (a, b) {
        (Some(x), Some(y)) => *x == *y,
        (None, None) => true,
        _ => false,
    }
}

/// The bits of an IEEE-754 double that is not a number.
pub open spec fn is_nan_bits(b: u64) -> bool {
    (b & 0x7FF0_0000_0000_0000u64) == 0x7FF0_0000_0000_0000u64 && (b & 0x000F_FFFF_FFFF_FFFFu64) != 0
}

/// The bits of an IEEE-754 zero, of either sign.
pub open spec fn is_zero_bits(b: u64) -> bool {
    (b & 0x7FFF_FFFF_FFFF_FFFFu64) == 0
}

/// Equality of two doubles given by their bits, as `f64 ==` decides it:
/// a NaN equals nothing, the two zeros are equal, and otherwise the bits
/// must agree.
pub open spec fn float_bits_eq(a: u64, b: u64) -> bool {
    !is_nan_bits(a) && !is_nan_bits(b) && (a == b || (is_zero_bits(a) && is_zero_bits(b)))
}

/// Equality of geometries, coordinate by coordinate as doubles.
pub open spec fn geometry_equal(a: WindowGeometry, b: WindowGeometry) -> bool {
    &&& float_bits_eq(a.x, b.x)
    &&& float_bits_eq(a.y, b.y)
    &&& float_bits_eq(a.width, b.width)
    &&& float_bits_eq(a.height, b.height)
}

/// Equality of optional geometries: both absent, or both present and equal.
pub open spec fn optional_geometry_equal(a: Option<WindowGeometry>, b: Option<WindowGeometry>) -> bool {
    match (a, b) {
        (Some(x), Some(y)) => geometry_equal(x, y),
        (None, None) => true,
        _ => false,
    }
}

/// Equality of descriptors: equal texts and equal geometry.
pub open spec fn descriptor_equal(a: DescriptorView, b: DescriptorView) -> bool {
    &&& a.label == b.label
    &&& a.url == b.url
    &&& a.parent == b.parent
    &&& a.title == b.title
    &&& optional_geometry_equal(a.geometry, b.geometry)
}

/// Whether two doubles, given by their bits, are equal.
pub fn float_bits_equal(a: u64, b: u64) -> (r: bool)
    ensures
        r == float_bits_eq(a, b),
{
    let a_nan = (a & 0x7FF0_0000_0000_0000u64) == 0x7FF0_0000_0000_0000u64 && (a & 0x000F_FFFF_FFFF_FFFFu64) != 0;
    let b_nan = (b & 0x7FF0_0000_0000_0000u64) == 0x7FF0_0000_0000_0000u64 && (b & 0x000F_FFFF_FFFF_FFFFu64) != 0;
    let both_zero = (a & 0x7FFF_FFFF_FFFF_FFFFu64) == 0 && (b & 0x7FFF_FFFF_FFFF_FFFFu64) == 0;
    !a_nan && !b_nan && (a == b || both_zero)
}

/// Whether two geometries are equal as doubles.
pub fn geometry_equals(a: &WindowGeometry, b: &WindowGeometry) -> (r: bool)
    ensures
        r == geometry_equal(*a, *b),
{
    float_bits_equal(a.x, b.x) && float_bits_equal(a.y, b.y) && float_bits_equal(a.width, b.width)
        && float_bits_equal(a.height, b.height)
}

/// Whether two optional geometries are equal.
pub fn same_geometry(a: &Option<WindowGeometry>, b: &Option<WindowGeometry>) -> (r: bool)
    ensures
        r == optional_geometry_equal(*a, *b),
{
    match (a, b) {
        (Some(x), Some(y)) => geometry_equals(x, y),
        (None, None) => true,
        _ => false,
    }
}

impl WindowDescriptor {
    /// A copy of this descriptor.
    pub fn duplicate(&self) -> (r: WindowDescriptor)
        ensures
            r@ == self@,
    {
        WindowDescriptor {
            label: self.label.clone(),
            url: self.url.clone(),
            parent: copy_text(&self.parent),
            title: copy_text(&self.title),
            geometry: self.geometry,
        }
    }

    /// Whether two descriptors record the same window the same way.
    pub fn same_as(&self, other: &WindowDescriptor) -> (r: bool)
        ensures
            r == descriptor_equal(self@, other@),
    {
        self.label == other.label && self.url == other.url && same_text(&self.parent, &other.parent)
            && same_text(&self.title, &other.title) && same_geometry(&self.geometry, &other.geometry)
    }
}

/// The views of a sequence of descriptors.
pub open spec fn views_of(s: Seq<WindowDescriptor>) -> Seq<DescriptorView> {
    s.map_values(|d: WindowDescriptor| d@)
}

} // verus!
