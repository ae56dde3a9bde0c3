//! Tensor types: element types, dimensions, and shape broadcasting.

use vstd::prelude::*;

use crate::text::{decimal, push_decimal, push_str};

verus! {

/// The element type of a tensor.
#[derive(Debug, Clone, Copy, PartialEq, Eq, Structural)]
pub enum DType {
    C64,
    C128,
    F32,
    F64,
    I8,
    I16,
    I32,
    I64,
    U8,
    U16,
    U32,
    U64,
    Bit,
}

/// An element type, either concrete or a named variable still to be resolved.
#[derive(Debug, PartialEq, Eq)]
pub enum DTypeLike {
    Concrete(DType),
    Var(String),
}

/// One dimension of a tensor shape: a known extent or a named, unresolved one.
#[derive(Debug, PartialEq, Eq)]
pub enum Dim {
    Fixed(usize),
    Named(String),
}

/// The type of a tensor: its element type, its shape, and whether it may be broadcast.
#[derive(Debug, PartialEq, Eq)]
pub struct TensorType {
    pub dtype: DTypeLike,
    pub shape: Vec<Dim>,
    pub broadcastable: bool,
}

impl Clone for DTypeLike {
    fn clone(&self) -> (res: Self)
        ensures
            res == *self,
    {
        match self {
            DTypeLike::Concrete(d) => DTypeLike::Concrete(*d),
            DTypeLike::Var(name) => DTypeLike::Var(name.clone()),
        }
    }
}

impl Clone for Dim {
    fn clone(&self) -> (res: Self)
        ensures
            res == *self,
    {
        match self {
            Dim::Fixed(n) => Dim::Fixed(*n),
            Dim::Named(name) => Dim::Named(name.clone()),
        }
    }
}

/// A copy of `dims`, element by element.
pub fn copy_dims(dims: &[Dim]) -> (res: Vec<Dim>)
    ensures
        res@ == dims@,
{
    let mut res: Vec<Dim> = Vec::new();
    for i in 0..dims.len()
        invariant
            res@ == dims@.take(i as int),
    {
        res.push(dims[i].clone());
        assert(res@ == dims@.take(i + 1));
    }
    assert(dims@.take(dims@.len() as int) == dims@);
    res
}

impl View for TensorType {
    type V = (DTypeLike, Seq<Dim>, bool);

    open spec fn view(&self) -> (DTypeLike, Seq<Dim>, bool) {
        (self.dtype, self.shape@, self.broadcastable)
    }
}

impl Clone for TensorType {
    fn clone(&self) -> (res: Self)
        ensures
            res@ == self@,
    {
        TensorType {
            dtype: self.dtype.clone(),
            shape: copy_dims(self.shape.as_slice()),
            broadcastable: self.broadcastable,
        }
    }
}


/// The name of an element type, as it is displayed.
pub open spec fn dtype_name(d: DType) -> Seq<char> {
    match d {
        DType::C64 => "C64"@,
        DType::C128 => "C128"@,
        DType::F32 => "F32"@,
        DType::F64 => "F64"@,
        DType::I8 => "I8"@,
        DType::I16 => "I16"@,
        DType::I32 => "I32"@,
        DType::I64 => "I64"@,
        DType::U8 => "U8"@,
        DType::U16 => "U16"@,
        DType::U32 => "U32"@,
        DType::U64 => "U64"@,
        DType::Bit => "Bit"@,
    }
}

/// The element type a lower-case name such as `"f64"` stands for, if any.
pub open spec fn dtype_named(name: Seq<char>) -> Option<DType> {
    if name == "c64"@ {
        Some(DType::C64)
    } else if name == "c128"@ {
        Some(DType::C128)
    } else if name == "f32"@ {
        Some(DType::F32)
    } else if name == "f64"@ {
        Some(DType::F64)
    } else if name == "i8"@ {
        Some(DType::I8)
    } else if name == "i16"@ {
        Some(DType::I16)
    } else if name == "i32"@ {
        Some(DType::I32)
    } else if name == "i64"@ {
        Some(DType::I64)
    } else if name == "u8"@ {
        Some(DType::U8)
    } else if name == "u16"@ {
        Some(DType::U16)
    } else if name == "u32"@ {
        Some(DType::U32)
    } else if name == "u64"@ {
        Some(DType::U64)
    } else if name == "bit"@ {
        Some(DType::Bit)
    } else {
        None
    }
}

impl DType {
    /// The name of this element type, as it is displayed.
    pub fn name(&self) -> (s: &'static str)
        ensures
            s@ == dtype_name(*self),
    {
        match self {
            DType::C64 => "C64",
            DType::C128 => "C128",
            DType::F32 => "F32",
            DType::F64 => "F64",
            DType::I8 => "I8",
            DType::I16 => "I16",
            DType::I32 => "I32",
            DType::I64 => "I64",
            DType::U8 => "U8",
            DType::U16 => "U16",
            DType::U32 => "U32",
            DType::U64 => "U64",
            DType::Bit => "Bit",
        }
    }

    /// The element type a lower-case name such as `"f64"` stands for, or `None` for a name
    /// that is no element type's.
    pub fn parse(name: &str) -> (d: Option<DType>)
        ensures
            d == dtype_named(name@),
    {
        let name = String::from_str(name);
        if name == String::from_str("c64") {
            return Some(DType::C64);
        }
        if name == String::from_str("c128") {
            return Some(DType::C128);
        }
        if name == String::from_str("f32") {
            return Some(DType::F32);
        }
        if name == String::from_str("f64") {
            return Some(DType::F64);
        }
        if name == String::from_str("i8") {
            return Some(DType::I8);
        }
        if name == String::from_str("i16") {
            return Some(DType::I16);
        }
        if name == String::from_str("i32") {
            return Some(DType::I32);
        }
        if name == String::from_str("i64") {
            return Some(DType::I64);
        }
        if name == String::from_str("u8") {
            return Some(DType::U8);
        }
        if name == String::from_str("u16") {
            return Some(DType::U16);
        }
        if name == String::from_str("u32") {
            return Some(DType::U32);
        }
        if name == String::from_str("u64") {
            return Some(DType::U64);
        }
        if name == String::from_str("bit") {
            return Some(DType::Bit);
        }
        None
    }

    /// The name of this element type as an owned string.
    pub fn to_string(&self) -> (s: String)
        ensures
            s@ == dtype_name(*self),
    {
        String::from_str(self.name())
    }
}

/// Whether two dimensions are the same: equal extents, or equal names.
pub open spec fn same_dim(a: Dim, b: Dim) -> bool {
    match (a, b) {
        (Dim::Fixed(x), Dim::Fixed(y)) => x == y,
        (Dim::Named(x), Dim::Named(y)) => x@ == y@,
        _ => false,
    }
}

/// Whether two dimensions are the same, computed.
pub fn dims_equal(a: &Dim, b: &Dim) -> (same: bool)
    ensures
        same == same_dim(*a, *b),
{
    match (a, b) {
        (Dim::Fixed(x), Dim::Fixed(y)) => *x == *y,
        (Dim::Named(x), Dim::Named(y)) => *x == *y,
        _ => false,
    }
}

/// Whether a dimension is the unit extent, which broadcasts against anything.
pub open spec fn is_unit(d: Dim) -> bool {
    d matches Dim::Fixed(1)
}

/// The dimension two dimensions broadcast to, if they are compatible: equal dimensions stay,
/// and a unit extent gives way to the other.
pub open spec fn broadcast_dim(a: Dim, b: Dim) -> Option<Dim> {
    if same_dim(a, b) {
        Some(a)
    } else if is_unit(a) {
        Some(b)
    } else if is_unit(b) {
        Some(a)
    } else {
        None
    }
}

/// Dimension `i` of `shape` right-aligned in a shape of rank `rank`, padded with unit extents.
pub open spec fn aligned_dim(shape: Seq<Dim>, rank: int, i: int) -> Dim {
    if i < rank - shape.len() {
        Dim::Fixed(1)
    } else {
        shape[i - (rank - shape.len())]
    }
}

/// The rank of the broadcast of two shapes.
pub open spec fn broadcast_rank(lhs: Seq<Dim>, rhs: Seq<Dim>) -> int {
    if lhs.len() >= rhs.len() { lhs.len() as int } else { rhs.len() as int }
}

/// Whether two shapes broadcast together: every aligned pair of dimensions is compatible.
pub open spec fn broadcastable(lhs: Seq<Dim>, rhs: Seq<Dim>) -> bool {
    let rank = broadcast_rank(lhs, rhs);
    forall|i: int| 0 <= i < rank ==> (#[trigger] broadcast_dim(aligned_dim(lhs, rank, i), aligned_dim(rhs, rank, i))) is Some
}

/// The shape two shapes broadcast to, NumPy style: right-aligned, each pair of dimensions
/// broadcast together.
pub open spec fn broadcast_shape_spec(lhs: Seq<Dim>, rhs: Seq<Dim>) -> Seq<Dim> {
    let rank = broadcast_rank(lhs, rhs);
    Seq::new(rank as nat, |i: int| broadcast_dim(aligned_dim(lhs, rank, i), aligned_dim(rhs, rank, i)).unwrap())
}

/// Errors raised by operations on tensors and their types.
#[derive(Debug, PartialEq, Eq)]
pub enum TensorError {
    /// Two concrete shapes do not broadcast together.
    ShapeMismatch { lhs: Vec<usize>, rhs: Vec<usize> },
    /// Two declared shapes do not broadcast together.
    IncompatibleDims { lhs: Vec<Dim>, rhs: Vec<Dim> },
    /// An array of this shape has more positions than an array can address.
    TooLarge { shape: Vec<usize> },
}

/// The dimension `i` of `shape` right-aligned in rank `rank`, computed.
fn aligned(shape: &[Dim], rank: usize, i: usize) -> (d: Dim)
    requires
        shape.len() <= rank,
        i < rank,
    ensures
        d == aligned_dim(shape@, rank as int, i as int),
{
    if i < rank - shape.len() {
        Dim::Fixed(1)
    } else {
        shape[i - (rank - shape.len())].clone()
    }
}

/// Broadcast two declared shapes against each other, NumPy style.
///
/// Shapes are right-aligned and padded on the left with unit extents. Each aligned pair must be
/// the same dimension, or one of them a unit extent, which takes the other's value.
pub fn broadcast_dims(lhs: &[Dim], rhs: &[Dim]) -> (res: Result<Vec<Dim>, TensorError>)
    ensures
        match res {
            Ok(shape) => broadcastable(lhs@, rhs@) && shape@ == broadcast_shape_spec(lhs@, rhs@),
            Err(e) => !broadcastable(lhs@, rhs@) && (e matches TensorError::IncompatibleDims { lhs: l, rhs: r }
                && l@ == lhs@ && r@ == rhs@),
        },
{
    let rank = if lhs.len() >= rhs.len() { lhs.len() } else { rhs.len() };
    let ghost r = rank as int;
    let mut shape: Vec<Dim> = Vec::new();
    let mut i: usize = 0;
    while i < rank
        invariant
            i <= rank,
            rank as int == broadcast_rank(lhs@, rhs@),
            r == rank as int,
            shape@.len() == i,
            forall|k: int| 0 <= k < i ==> (#[trigger] broadcast_dim(aligned_dim(lhs@, r, k), aligned_dim(rhs@, r, k))) is Some
                && shape@[k] == broadcast_dim(aligned_dim(lhs@, r, k), aligned_dim(rhs@, r, k)).unwrap(),
        decreases rank - i,
    {
        let a = aligned(lhs, rank, i);
        let b = aligned(rhs, rank, i);
        if dims_equal(&a, &b) {
            shape.push(a);
        } else if matches!(a, Dim::Fixed(1)) {
            shape.push(b);
        } else if matches!(b, Dim::Fixed(1)) {
            shape.push(a);
        } else {
            assert(broadcast_dim(aligned_dim(lhs@, r, i as int), aligned_dim(rhs@, r, i as int)) is None);
            assert(!broadcastable(lhs@, rhs@));
            return Err(TensorError::IncompatibleDims { lhs: copy_dims(lhs), rhs: copy_dims(rhs) });
        }
        i = i + 1;
    }
    assert(shape@ == broadcast_shape_spec(lhs@, rhs@));
    Ok(shape)
}


/// How a dimension is displayed: its extent, or its name.
pub open spec fn dim_text(d: Dim) -> Seq<char> {
    match d {
        Dim::Fixed(n) => decimal(n as nat),
        Dim::Named(name) => name@,
    }
}

/// The dimensions of a shape, separated by `", "`.
pub open spec fn dims_text(dims: Seq<Dim>) -> Seq<char>
    decreases dims.len(),
{
    if dims.len() == 0 {
        Seq::empty()
    } else if dims.len() == 1 {
        dim_text(dims[0])
    } else {
        dims_text(dims.drop_last()) + ", "@ + dim_text(dims.last())
    }
}

/// How an element type is displayed: its name, or its variable's name.
pub open spec fn dtype_like_text(d: DTypeLike) -> Seq<char> {
    match d {
        DTypeLike::Concrete(c) => dtype_name(c),
        DTypeLike::Var(name) => name@,
    }
}

/// How a tensor type is displayed, e.g. `F64[4, 2]`.
pub open spec fn type_text(dtype: DTypeLike, shape: Seq<Dim>) -> Seq<char> {
    dtype_like_text(dtype) + "["@ + dims_text(shape) + "]"@
}

/// Append how `dim` is displayed.
pub fn push_dim(s: &mut String, dim: &Dim)
    ensures
        final(s)@ == old(s)@ + dim_text(*dim),
{
    match dim {
        Dim::Fixed(n) => push_decimal(s, *n),
        Dim::Named(name) => push_str(s, name.as_str()),
    }
}

/// Append how `ty` is displayed.
pub fn push_type(s: &mut String, ty: &TensorType)
    ensures
        final(s)@ == old(s)@ + type_text(ty.dtype, ty.shape@),
{
    let ghost start = s@;
    match &ty.dtype {
        DTypeLike::Concrete(d) => push_str(s, d.name()),
        DTypeLike::Var(name) => push_str(s, name.as_str()),
    }
    push_str(s, "[");
    let ghost opened = s@;
    let mut i: usize = 0;
    while i < ty.shape.len()
        invariant
            i <= ty.shape.len(),
            s@ == opened + dims_text(ty.shape@.take(i as int)),
        decreases ty.shape.len() - i,
    {
        let ghost before = s@;
        if i > 0 {
            push_str(s, ", ");
        }
        push_dim(s, &ty.shape[i]);
        proof {
            let t = ty.shape@.take(i + 1);
            assert(t.drop_last() == ty.shape@.take(i as int));
            assert(t.last() == ty.shape@[i as int]);
            if i == 0 {
                assert(t.len() == 1);
                assert(t[0] == ty.shape@[0]);
            }
        }
        i = i + 1;
    }
    assert(ty.shape@.take(ty.shape.len() as int) == ty.shape@);
    push_str(s, "]");
}

/// How `ty` is displayed, e.g. `F64[4, 2]`.
pub fn type_string(ty: &TensorType) -> (text: String)
    ensures
        text@ == type_text(ty.dtype, ty.shape@),
{
    let mut text = String::new();
    push_type(&mut text, ty);
    assert(text@ == Seq::<char>::empty() + type_text(ty.dtype, ty.shape@));
    text
}


/// The number of elements of a tensor of shape `shape`: the product of its extents.
pub open spec fn element_count(shape: Seq<usize>) -> nat
    decreases shape.len(),
{
    if shape.len() == 0 {
        1
    } else {
        element_count(shape.drop_last()) * (shape.last() as nat)
    }
}

/// A shape with a zero extent has no elements.
proof fn lemma_zero_extent(shape: Seq<usize>, k: int)
    requires
        0 <= k < shape.len(),
        shape[k] == 0,
    ensures
        element_count(shape) == 0,
    decreases shape.len(),
{
    if k < shape.len() - 1 {
        lemma_zero_extent(shape.drop_last(), k);
    }
    let rest = element_count(shape.drop_last());
    let last = shape.last() as nat;
    assert(rest * last == 0) by (nonlinear_arith)
        requires
            rest == 0 || last == 0;
}

/// Without zero extents, a longer prefix of a shape has at least as many elements.
proof fn lemma_prefix_count(shape: Seq<usize>, k: int)
    requires
        0 <= k <= shape.len(),
        forall|i: int| 0 <= i < shape.len() ==> #[trigger] shape[i] > 0,
    ensures
        element_count(shape.take(k)) <= element_count(shape),
    decreases shape.len() - k,
{
    if k < shape.len() {
        let t = shape.take(k + 1);
        assert(t.drop_last() == shape.take(k));
        let before = element_count(shape.take(k));
        let extent = shape[k] as nat;
        assert(before * extent >= before) by (nonlinear_arith)
            requires
                extent >= 1;
        lemma_prefix_count(shape, k + 1);
    } else {
        assert(shape.take(k) == shape);
    }
}

/// The number of elements of a tensor of shape `shape`, if it fits in a `usize`.
pub fn checked_element_count(shape: &[usize]) -> (count: Option<usize>)
    ensures
        match count {
            Some(n) => n == element_count(shape@),
            None => element_count(shape@) > usize::MAX,
        },
{
    let mut z: usize = 0;
    while z < shape.len()
        invariant
            z <= shape.len(),
            forall|i: int| 0 <= i < z ==> #[trigger] shape@[i] > 0,
        decreases shape.len() - z,
    {
        if shape[z] == 0 {
            proof {
                lemma_zero_extent(shape@, z as int);
            }
            return Some(0);
        }
        z = z + 1;
    }
    let mut count: usize = 1;
    let mut i: usize = 0;
    assert(shape@.take(0) =~= Seq::<usize>::empty());
    while i < shape.len()
        invariant
            i <= shape.len(),
            forall|j: int| 0 <= j < shape.len() ==> #[trigger] shape@[j] > 0,
            count == element_count(shape@.take(i as int)),
        decreases shape.len() - i,
    {
        proof {
            assert(shape@.take(i + 1).drop_last() == shape@.take(i as int));
        }
        match count.checked_mul(shape[i]) {
            Some(next) => {
                count = next;
            },
            None => {
                proof {
                    lemma_prefix_count(shape@, i + 1);
                }
                return None;
            },
        }
        i = i + 1;
    }
    assert(shape@.take(shape.len() as int) == shape@);
    Some(count)
}

/// The product of the extents of `shape` other than zero: what `ndarray` bounds by `isize::MAX`
/// when it lays out an array of that shape.
pub open spec fn nonzero_count(shape: Seq<usize>) -> nat
    decreases shape.len(),
{
    if shape.len() == 0 {
        1
    } else if shape.last() == 0 {
        nonzero_count(shape.drop_last())
    } else {
        nonzero_count(shape.drop_last()) * (shape.last() as nat)
    }
}

/// Taking more extents never lowers the product of the nonzero ones.
proof fn lemma_nonzero_prefix(shape: Seq<usize>, k: int)
    requires
        0 <= k <= shape.len(),
    ensures
        nonzero_count(shape.take(k)) <= nonzero_count(shape),
    decreases shape.len() - k,
{
    if k < shape.len() {
        let t = shape.take(k + 1);
        assert(t.drop_last() == shape.take(k));
        let before = nonzero_count(shape.take(k));
        let extent = shape[k] as nat;
        if extent > 0 {
            assert(before * extent >= before) by (nonlinear_arith)
                requires
                    extent >= 1;
        }
        lemma_nonzero_prefix(shape, k + 1);
    } else {
        assert(shape.take(k) == shape);
    }
}

/// Whether `ndarray` can lay out an array of shape `shape`: the product of its nonzero extents
/// is at most `isize::MAX`.
pub fn within_array_limit(shape: &[usize]) -> (ok: bool)
    ensures
        ok == (nonzero_count(shape@) <= isize::MAX),
{
    let limit: usize = isize::MAX as usize;
    let mut count: usize = 1;
    let mut i: usize = 0;
    assert(shape@.take(0) =~= Seq::<usize>::empty());
    while i < shape.len()
        invariant
            i <= shape.len(),
            limit == isize::MAX,
            count == nonzero_count(shape@.take(i as int)),
            count <= limit,
        decreases shape.len() - i,
    {
        proof {
            assert(shape@.take(i + 1).drop_last() == shape@.take(i as int));
            assert(shape@.take(i + 1).last() == shape@[i as int]);
        }
        if shape[i] != 0 {
            match count.checked_mul(shape[i]) {
                Some(next) => {
                    if next > limit {
                        proof {
                            lemma_nonzero_prefix(shape@, i + 1);
                        }
                        return false;
                    }
                    count = next;
                },
                None => {
                    proof {
                        lemma_nonzero_prefix(shape@, i + 1);
                    }
                    return false;
                },
            }
        }
        i = i + 1;
    }
    assert(shape@.take(shape.len() as int) == shape@);
    true
}

/// The extent two extents broadcast to, if they are compatible: equal extents stay, and a unit
/// extent gives way to the other.
pub open spec fn broadcast_extent(a: usize, b: usize) -> Option<usize> {
    if a == b {
        Some(a)
    } else if a == 1 {
        Some(b)
    } else if b == 1 {
        Some(a)
    } else {
        None
    }
}

/// Extent `i` of `shape` right-aligned in a shape of rank `rank`, padded with unit extents.
pub open spec fn aligned_extent(shape: Seq<usize>, rank: int, i: int) -> usize {
    if i < rank - shape.len() {
        1
    } else {
        shape[i - (rank - shape.len())]
    }
}

/// The rank of the broadcast of two concrete shapes.
pub open spec fn extents_rank(lhs: Seq<usize>, rhs: Seq<usize>) -> int {
    if lhs.len() >= rhs.len() { lhs.len() as int } else { rhs.len() as int }
}

/// Whether two concrete shapes broadcast together.
pub open spec fn extents_broadcast(lhs: Seq<usize>, rhs: Seq<usize>) -> bool {
    let rank = extents_rank(lhs, rhs);
    forall|i: int| 0 <= i < rank ==> (#[trigger] broadcast_extent(aligned_extent(lhs, rank, i), aligned_extent(rhs, rank, i))) is Some
}

/// The shape two concrete shapes broadcast to, NumPy style.
pub open spec fn broadcast_extents(lhs: Seq<usize>, rhs: Seq<usize>) -> Seq<usize> {
    let rank = extents_rank(lhs, rhs);
    Seq::new(rank as nat, |i: int| broadcast_extent(aligned_extent(lhs, rank, i), aligned_extent(rhs, rank, i)).unwrap())
}

/// Broadcast two concrete shapes against each other, NumPy style.
pub fn broadcast_shape(lhs: &[usize], rhs: &[usize]) -> (res: Result<Vec<usize>, TensorError>)
    ensures
        match res {
            Ok(shape) => extents_broadcast(lhs@, rhs@) && shape@ == broadcast_extents(lhs@, rhs@),
            Err(e) => !extents_broadcast(lhs@, rhs@) && (e matches TensorError::ShapeMismatch { lhs: l, rhs: r }
                && l@ == lhs@ && r@ == rhs@),
        },
{
    let rank = if lhs.len() >= rhs.len() { lhs.len() } else { rhs.len() };
    let ghost r = rank as int;
    let mut shape: Vec<usize> = Vec::new();
    let mut i: usize = 0;
    while i < rank
        invariant
            i <= rank,
            rank as int == extents_rank(lhs@, rhs@),
            r == rank as int,
            shape@.len() == i,
            forall|k: int| 0 <= k < i ==> (#[trigger] broadcast_extent(aligned_extent(lhs@, r, k), aligned_extent(rhs@, r, k))) is Some
                && shape@[k] == broadcast_extent(aligned_extent(lhs@, r, k), aligned_extent(rhs@, r, k)).unwrap(),
        decreases rank - i,
    {
        let a = if i < rank - lhs.len() { 1 } else { lhs[i - (rank - lhs.len())] };
        let b = if i < rank - rhs.len() { 1 } else { rhs[i - (rank - rhs.len())] };
        assert(a == aligned_extent(lhs@, r, i as int));
        assert(b == aligned_extent(rhs@, r, i as int));
        if a == b {
            shape.push(a);
        } else if a == 1 {
            shape.push(b);
        } else if b == 1 {
            shape.push(a);
        } else {
            assert(broadcast_extent(aligned_extent(lhs@, r, i as int), aligned_extent(rhs@, r, i as int)) is None);
            assert(!extents_broadcast(lhs@, rhs@));
            return Err(TensorError::ShapeMismatch { lhs: copy_words(lhs), rhs: copy_words(rhs) });
        }
        i = i + 1;
    }
    assert(shape@ == broadcast_extents(lhs@, rhs@));
    Ok(shape)
}

/// A tensor value: its element type, its shape, and its elements in row-major order, each
/// held as a 64-bit word (a `Bit` element as 0 or 1, a floating-point element as its bit
/// pattern). There is one element per position of the shape.
#[derive(Debug, PartialEq, Eq)]
pub struct Tensor {
    dtype: DType,
    shape: Vec<usize>,
    words: Vec<u64>,
}

impl View for Tensor {
    type V = (DType, Seq<usize>, Seq<u64>);

    closed spec fn view(&self) -> (DType, Seq<usize>, Seq<u64>) {
        (self.dtype, self.shape@, self.words@)
    }
}

/// Whether `words` holds one element per position of `shape`.
pub open spec fn fits(shape: Seq<usize>, words: Seq<u64>) -> bool {
    words.len() == element_count(shape)
}

/// Whether `shape` and `words` make a tensor: one word per position, and a shape that can be laid
/// out.
pub open spec fn tensor_parts_valid(shape: Seq<usize>, words: Seq<u64>) -> bool {
    fits(shape, words) && nonzero_count(shape) <= isize::MAX
}

impl Tensor {
    /// A tensor holds one element per position of its shape, and its shape can be laid out as
    /// an `ndarray` array.
    #[verifier::type_invariant]
    spec fn well_formed(self) -> bool {
        fits(self.shape@, self.words@) && nonzero_count(self.shape@) <= isize::MAX
    }

    /// The tensor of element type `dtype` and shape `shape` holding `words` in row-major order,
    /// or `None` if there are not exactly as many words as the shape has positions, or the shape
    /// is too large to lay out.
    pub fn new(dtype: DType, shape: Vec<usize>, words: Vec<u64>) -> (t: Option<Tensor>)
        ensures
            match t {
                Some(tensor) => tensor_parts_valid(shape@, words@) && tensor@ == (dtype, shape@, words@),
                None => !tensor_parts_valid(shape@, words@),
            },
    {
        if !within_array_limit(shape.as_slice()) {
            return None;
        }
        match checked_element_count(shape.as_slice()) {
            Some(n) => {
                if n == words.len() {
                    assert(fits(shape@, words@));
                    let ghost parts = (dtype, shape@, words@);
                    let tensor = Tensor { dtype, shape, words };
                    assert(tensor@ == parts);
                    Some(tensor)
                } else {
                    None
                }
            },
            None => {
                assert(words@.len() == words.len());
                None
            },
        }
    }

    /// A tensor built from parts known to be valid.
    pub(crate) fn from_parts(dtype: DType, shape: Vec<usize>, words: Vec<u64>) -> (t: Tensor)
        requires
            tensor_parts_valid(shape@, words@),
        ensures
            t@ == (dtype, shape@, words@),
    {
        Tensor { dtype, shape, words }
    }

    /// The element type of this tensor.
    pub fn dtype(&self) -> (d: DType)
        ensures
            d == self@.0,
    {
        self.dtype
    }

    /// The shape of this tensor.
    pub fn shape(&self) -> (shape: &[usize])
        ensures
            shape@ == self@.1,
    {
        self.shape.as_slice()
    }

    /// The elements of this tensor, in row-major order.
    pub fn words(&self) -> (words: &[u64])
        ensures
            words@ == self@.2,
            tensor_parts_valid(self@.1, self@.2),
    {
        proof {
            use_type_invariant(self);
        }
        self.words.as_slice()
    }
}

/// A copy of a vector of plain values.
pub fn copy_words<T: Copy>(values: &[T]) -> (copy: Vec<T>)
    ensures
        copy@ == values@,
{
    let mut copy: Vec<T> = Vec::new();
    for i in 0..values.len()
        invariant
            copy@ == values@.take(i as int),
    {
        copy.push(values[i]);
        assert(copy@ == values@.take(i + 1));
    }
    assert(values@.take(values@.len() as int) == values@);
    copy
}

impl Clone for Tensor {
    fn clone(&self) -> (res: Self)
        ensures
            res@ == self@,
    {
        proof {
            use_type_invariant(self);
        }
        Tensor {
            dtype: self.dtype,
            shape: copy_words(self.shape.as_slice()),
            words: copy_words(self.words.as_slice()),
        }
    }
}

/// Named types, each by its view.
pub open spec fn named_type_views(named: Seq<(String, TensorType)>) -> Seq<(Seq<char>, (DTypeLike, Seq<Dim>, bool))> {
    Seq::new(named.len(), |i: int| (named[i].0@, named[i].1@))
}

/// The views of a sequence of tensor types.
pub open spec fn type_views(types: Seq<TensorType>) -> Seq<(DTypeLike, Seq<Dim>, bool)> {
    types.map_values(|t: TensorType| t@)
}

/// The views of a sequence of tensors.
pub open spec fn tensor_views(tensors: Seq<Tensor>) -> Seq<(DType, Seq<usize>, Seq<u64>)> {
    tensors.map_values(|t: Tensor| t@)
}

} // verus!
