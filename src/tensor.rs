use vstd::prelude::*;

verus! {

/// Element type of a tensor.
#[derive(Clone, Copy, Debug, PartialEq, Eq, Structural)]
pub enum DType {
    F32,
    F16,
    BF16,
    F64,
    I64,
    I32,
    I16,
    I8,
    U64,
    U32,
    U16,
    U8,
    Bool,
}

/// Element type code of the interchange format.
pub open spec fn dtype_code(d: DType) -> i64 {
    match d {
        DType::F32 => 1,
        DType::U8 => 2,
        DType::I8 => 3,
        DType::U16 => 4,
        DType::I16 => 5,
        DType::I32 => 6,
        DType::I64 => 7,
        DType::Bool => 9,
        DType::F16 => 10,
        DType::F64 => 11,
        DType::U32 => 12,
        DType::U64 => 13,
        DType::BF16 => 16,
    }
}

impl DType {
    /// The interchange format's code for this element type.
    pub fn onnx_code(&self) -> (r: i64)
        ensures
            r == dtype_code(*self),
    {
        match self {
            DType::F32 => 1,
            DType::U8 => 2,
            DType::I8 => 3,
            DType::U16 => 4,
            DType::I16 => 5,
            DType::I32 => 6,
            DType::I64 => 7,
            DType::Bool => 9,
            DType::F16 => 10,
            DType::F64 => 11,
            DType::U32 => 12,
            DType::U64 => 13,
            DType::BF16 => 16,
        }
    }
}

/// One dimension of a shape: a known extent, a symbolic name, or not resolved.
#[derive(Clone, Debug, PartialEq, Eq)]
pub enum Dimension {
    Known(u64),
    Symbolic(String),
    Unresolved,
}

impl Dimension {
    /// An equal copy of this dimension.
    pub fn copy(&self) -> (r: Dimension)
        ensures
            r == *self,
    {
        match self {
            Dimension::Known(n) => Dimension::Known(*n),
            Dimension::Symbolic(s) => Dimension::Symbolic(s.clone()),
            Dimension::Unresolved => Dimension::Unresolved,
        }
    }
}

/// An equal copy of a shape.
pub fn copy_shape(s: &Vec<Dimension>) -> (r: Vec<Dimension>)
    ensures
        r@ == s@,
{
    let mut r: Vec<Dimension> = Vec::new();
    let mut i: usize = 0;
    while i < s.len()
        invariant
            i <= s@.len(),
            r@ == s@.subrange(0, i as int),
        decreases s@.len() - i,
    {
        r.push(s[i].copy());
        i = i + 1;
        assert(r@ =~= s@.subrange(0, i as int));
    }
    assert(r@ =~= s@);
    r
}

/// Extents of a shape whose dimensions are all known.
pub open spec fn known_dims(s: Seq<Dimension>) -> Option<Seq<u64>> {
    if forall|i: int| 0 <= i < s.len() ==> (#[trigger] s[i]) is Known {
        Some(Seq::new(s.len(), |i: int| s[i]->Known_0))
    } else {
        None
    }
}

/// Failures of graph construction and assembly.
#[derive(Debug)]
pub enum Error {
    InputShapeError(Vec<Dimension>),
    ShapeMismatchError(Vec<Dimension>, Vec<Dimension>),
    IncompatibleShapeError(Vec<Dimension>, Vec<Dimension>),
    DTypeMismatchError(DType, DType),
    InvalidInputError,
    UnsupportedDTypeError,
    NameConflictError(String),
    NoSuchTensorError(String),
    UnresolvedDimensionError,
    InvalidDTypeError,
    CannotResolveDataError,
    OtherError,
}

/// The extents of `s`, or `UnresolvedDimensionError` where one is not known.
pub fn resolve_dims(s: &Vec<Dimension>) -> (r: Result<Vec<u64>, Error>)
    ensures
        match known_dims(s@) {
            Some(d) => r is Ok && r->Ok_0@ == d,
            None => r is Err && r->Err_0 is UnresolvedDimensionError,
        },
{
    let mut r: Vec<u64> = Vec::new();
    let mut i: usize = 0;
    while i < s.len()
        invariant
            i <= s@.len(),
            r@.len() == i,
            forall|j: int| 0 <= j < i ==> (#[trigger] s@[j]) is Known && r@[j] == s@[j]->Known_0,
        decreases s@.len() - i,
    {
        match &s[i] {
            Dimension::Known(n) => r.push(*n),
            _ => {
                return Err(Error::UnresolvedDimensionError);
            },
        }
        i = i + 1;
    }
    assert(r@ =~= Seq::new(s@.len(), |j: int| s@[j]->Known_0));
    Ok(r)
}

} // verus!
