//! The layout of n-dimensional arrays: their shape, strides and flags, the
//! offset of an element given by its flat index, and the checks made before
//! an array is read, written or created.
use crate::utils::text::{decimal, decimal_text};
use vstd::prelude::*;

verus! {

/// Control flags of arrays handed out.
#[derive(Clone, Copy, PartialEq, Eq, Structural, Debug)]
pub enum PyArrayFlags {
    ReadOnly,
    ReadWrite,
}

/// The flag of arrays laid out in row-major order, without gaps.
pub const C_CONTIGUOUS: i32 = 0x0001;

/// The flag of arrays that may be written.
pub const WRITEABLE: i32 = 0x0400;

impl PyArrayFlags {
    /// The flags' bits.
    pub fn bits(self) -> (r: i32)
        ensures
            r == match self {
                PyArrayFlags::ReadOnly => C_CONTIGUOUS,
                PyArrayFlags::ReadWrite => C_CONTIGUOUS | WRITEABLE,
            },
    {
        match self {
            PyArrayFlags::ReadOnly => C_CONTIGUOUS,
            PyArrayFlags::ReadWrite => C_CONTIGUOUS | WRITEABLE,
        }
    }
}

/// A shape given as a single size or as a list of sizes.
pub enum ShapeArg {
    Scalar(usize),
    Vector(Vec<usize>),
}

impl ShapeArg {
    /// The sizes of this shape.
    pub fn into_vec(self) -> (r: Vec<usize>)
        ensures
            r@ == match self {
                ShapeArg::Scalar(n) => seq![n],
                ShapeArg::Vector(v) => v@,
            },
    {
        match self {
            ShapeArg::Scalar(n) => {
                let mut v: Vec<usize> = Vec::new();
                v.push(n);
                v
            },
            ShapeArg::Vector(v) => v,
        }
    }
}

/// Why an array operation is refused.
#[derive(Clone, Copy, PartialEq, Eq, Structural, Debug)]
pub enum NumpyError {
    /// A flat index beyond the array's size.
    IndexOutOfRange { size: usize, index: usize },
    /// A count of dimensions that does not fit an `i32`.
    BadDimensions(usize),
    /// A size that does not fit the array index type.
    BadSize(usize),
    /// Data whose length is not the size of the shape.
    SizeMismatch { expected: usize, found: usize },
    /// An array that is not laid out in row-major order.
    NotContiguous,
    /// An array that may not be written.
    ReadOnly,
}

/// The message of a `NumpyError`.
pub open spec fn numpy_error_text(e: NumpyError) -> Seq<char> {
    match e {
        NumpyError::IndexOutOfRange { size, index } => "ndarray index out of range (expected an index in [0, "@
            + decimal_text(size as nat) + "), found "@ + decimal_text(index as nat) + ")"@,
        NumpyError::BadDimensions(n) => "bad i32 value ("@ + decimal_text(n as nat) + ")"@,
        NumpyError::BadSize(n) => "bad npy_intp value ("@ + decimal_text(n as nat) + ")"@,
        NumpyError::SizeMismatch { expected, found } => "bad ndarray size (expected "@
            + decimal_text(expected as nat) + ", found "@ + decimal_text(found as nat) + ")"@,
        NumpyError::NotContiguous => "memory is not C-contiguous"@,
        NumpyError::ReadOnly => "assignment destination is read-only"@,
    }
}

impl NumpyError {
    /// The message of this error.
    pub fn message(&self) -> (r: String)
        ensures
            r@ == numpy_error_text(*self),
    {
        match *self {
            NumpyError::IndexOutOfRange { size, index } => {
                let mut s = String::from_str("ndarray index out of range (expected an index in [0, ");
                s.append(decimal(size as u64).as_str());
                s.append("), found ");
                s.append(decimal(index as u64).as_str());
                s.append(")");
                s
            },
            NumpyError::BadDimensions(n) => {
                let mut s = String::from_str("bad i32 value (");
                s.append(decimal(n as u64).as_str());
                s.append(")");
                s
            },
            NumpyError::BadSize(n) => {
                let mut s = String::from_str("bad npy_intp value (");
                s.append(decimal(n as u64).as_str());
                s.append(")");
                s
            },
            NumpyError::SizeMismatch { expected, found } => {
                let mut s = String::from_str("bad ndarray size (expected ");
                s.append(decimal(expected as u64).as_str());
                s.append(", found ");
                s.append(decimal(found as u64).as_str());
                s.append(")");
                s
            },
            NumpyError::NotContiguous => String::from_str("memory is not C-contiguous"),
            NumpyError::ReadOnly => String::from_str("assignment destination is read-only"),
        }
    }
}

/// The product of the sizes `s`.
pub open spec fn product(s: Seq<usize>) -> nat
    decreases s.len(),
{
    if s.len() == 0 {
        1
    } else {
        product(s.drop_last()) * (s.last() as nat)
    }
}

/// Whether each product of the first sizes of `s` is at most `bound`.
pub open spec fn products_within(s: Seq<usize>, bound: nat) -> bool {
    forall|k: int| 0 <= k <= s.len() ==> #[trigger] product(s.take(k)) <= bound
}

/// The product of `sizes`, computed from the first.
fn product_of(sizes: &[usize]) -> (r: usize)
    requires
        products_within(sizes@, usize::MAX as nat),
    ensures
        r == product(sizes@),
{
    let mut p: usize = 1;
    let mut i: usize = 0;
    assert(sizes@.take(0) =~= Seq::<usize>::empty());
    while i < sizes.len()
        invariant
            0 <= i <= sizes@.len(),
            products_within(sizes@, usize::MAX as nat),
            p == product(sizes@.take(i as int)),
        decreases sizes@.len() - i,
    {
        assert(sizes@.take(i + 1).drop_last() =~= sizes@.take(i as int));
        assert(product(sizes@.take(i + 1)) <= usize::MAX);
        p = p * sizes[i];
        i = i + 1;
    }
    assert(sizes@.take(i as int) =~= sizes@);
    p
}

/// The offset, in bytes, of the element of flat index `index`, in row-major
/// order, of an array of the given shape and strides.
pub open spec fn offset_spec(shape: Seq<usize>, strides: Seq<isize>, index: nat) -> int
    decreases shape.len(),
{
    if shape.len() == 0 || strides.len() == 0 {
        0
    } else {
        (index % (shape.last() as nat)) * strides.last() + offset_spec(
            shape.drop_last(),
            strides.drop_last(),
            index / (shape.last() as nat),
        )
    }
}

/// Whether summing the terms of the offset, from the last dimension, starting
/// from `acc`, stays within `isize`, each term too.
pub open spec fn offset_fits(shape: Seq<usize>, strides: Seq<isize>, index: nat, acc: int) -> bool
    decreases shape.len(),
{
    if shape.len() == 0 || strides.len() == 0 {
        true
    } else {
        let t = (index % (shape.last() as nat)) * strides.last();
        &&& 0 < shape.last() <= isize::MAX
        &&& isize::MIN <= t <= isize::MAX
        &&& isize::MIN <= acc + t <= isize::MAX
        &&& offset_fits(shape.drop_last(), strides.drop_last(), index / (shape.last() as nat), acc + t)
    }
}

/// The shape, strides and flags of an array.
pub struct ArrayLayout {
    pub shape: Vec<usize>,
    pub strides: Vec<isize>,
    pub flags: i32,
}

impl ArrayLayout {
    /// The count of dimensions.
    pub fn ndim(&self) -> (r: usize)
        ensures
            r == self.shape@.len(),
    {
        self.shape.len()
    }

    /// The count of elements.
    pub fn size(&self) -> (r: usize)
        requires
            products_within(self.shape@, usize::MAX as nat),
        ensures
            r == product(self.shape@),
    {
        product_of(self.shape.as_slice())
    }

    /// The offset of the element of flat index `index`.
    pub fn offset_of(&self, index: usize) -> (r: isize)
        requires
            self.shape@.len() == self.strides@.len(),
            offset_fits(self.shape@, self.strides@, index as nat, 0),
        ensures
            r == offset_spec(self.shape@, self.strides@, index as nat),
    {
        let n = self.shape.len();
        let mut remainder: usize = index;
        let mut offset: isize = 0;
        let mut i: usize = n;
        assert(self.shape@.take(n as int) =~= self.shape@);
        assert(self.strides@.take(n as int) =~= self.strides@);
        while i > 0
            invariant
                n == self.shape@.len(),
                n == self.strides@.len(),
                0 <= i <= n,
                offset_fits(self.shape@.take(i as int), self.strides@.take(i as int), remainder as nat, offset as int),
                offset + offset_spec(self.shape@.take(i as int), self.strides@.take(i as int), remainder as nat)
                    == offset_spec(self.shape@, self.strides@, index as nat),
            decreases i,
        {
            let ghost sh = self.shape@.take(i as int);
            let ghost st = self.strides@.take(i as int);
            assert(sh.last() == self.shape@[i - 1]);
            assert(st.last() == self.strides@[i - 1]);
            assert(sh.drop_last() =~= self.shape@.take(i - 1));
            assert(st.drop_last() =~= self.strides@.take(i - 1));
            let m = self.shape[i - 1];
            let j = remainder % m;
            proof {
                let (rr, jj, mm) = (remainder as int, j as int, m as int);
                assert((rr - jj) / mm == rr / mm && 0 <= jj < mm && jj <= rr) by (nonlinear_arith)
                    requires jj == rr % mm, mm > 0, rr >= 0;
            }
            let t = (j as isize) * self.strides[i - 1];
            remainder = (remainder - j) / m;
            offset = offset + t;
            i = i - 1;
        }
        offset
    }

    /// The offset of the element of flat index `index`, which must be within
    /// the array.
    pub fn data(&self, index: usize) -> (r: Result<isize, NumpyError>)
        requires
            self.shape@.len() == self.strides@.len(),
            products_within(self.shape@, usize::MAX as nat),
            index < product(self.shape@) ==> offset_fits(self.shape@, self.strides@, index as nat, 0),
        ensures
            match r {
                Ok(offset) => index < product(self.shape@)
                    && offset == offset_spec(self.shape@, self.strides@, index as nat),
                Err(e) => index >= product(self.shape@)
                    && e == (NumpyError::IndexOutOfRange { size: product(self.shape@) as usize, index }),
            },
    {
        let size = self.size();
        if index >= size {
            Err(NumpyError::IndexOutOfRange { size, index })
        } else {
            Ok(self.offset_of(index))
        }
    }

    /// Marks the array as one that may not be written.
    pub fn readonly(&mut self)
        ensures
            final(self).flags == old(self).flags & !WRITEABLE,
            final(self).shape == old(self).shape,
            final(self).strides == old(self).strides,
    {
        self.flags = self.flags & !WRITEABLE;
    }

    /// Checks that the array is laid out in row-major order, without gaps.
    pub fn is_contiguous(&self) -> (r: Result<(), NumpyError>)
        ensures
            r == if self.flags & C_CONTIGUOUS == 0 {
                Err::<(), NumpyError>(NumpyError::NotContiguous)
            } else {
                Ok(())
            },
    {
        if self.flags & C_CONTIGUOUS == 0 {
            Err(NumpyError::NotContiguous)
        } else {
            Ok(())
        }
    }

    /// Checks that the array may be written.
    pub fn is_writeable(&self) -> (r: Result<(), NumpyError>)
        ensures
            r == if self.flags & WRITEABLE == 0 {
                Err::<(), NumpyError>(NumpyError::ReadOnly)
            } else {
                Ok(())
            },
    {
        if self.flags & WRITEABLE == 0 {
            Err(NumpyError::ReadOnly)
        } else {
            Ok(())
        }
    }
}

/// `size` as an array index, if it fits one.
pub fn try_size(size: usize) -> (r: Result<isize, NumpyError>)
    ensures
        match r {
            Ok(v) => size <= isize::MAX && v == size,
            Err(e) => size > isize::MAX && e == NumpyError::BadSize(size),
        },
{
    if size <= isize::MAX as usize {
        Ok(size as isize)
    } else {
        Err(NumpyError::BadSize(size))
    }
}

/// The count of dimensions and the sizes of `shape`, as the array library
/// takes them, if they fit.
pub fn try_shape(shape: &[usize]) -> (r: Result<(i32, Vec<isize>), NumpyError>)
    ensures
        match r {
            Ok((ndim, sizes)) => shape@.len() <= i32::MAX && ndim == shape@.len()
                && sizes@.len() == shape@.len()
                && forall|i: int| 0 <= i < shape@.len() ==> shape@[i] <= isize::MAX && sizes@[i] == shape@[i],
            Err(e) => if shape@.len() > i32::MAX {
                e == NumpyError::BadDimensions(shape@.len() as usize)
            } else {
                exists|i: int| 0 <= i < shape@.len() && shape@[i] > isize::MAX
                    && e == NumpyError::BadSize(shape@[i])
                    && forall|k: int| 0 <= k < i ==> shape@[k] <= isize::MAX
            },
        },
{
    if shape.len() > i32::MAX as usize {
        return Err(NumpyError::BadDimensions(shape.len()));
    }
    let ndim = shape.len() as i32;
    let mut sizes: Vec<isize> = Vec::new();
    let mut i: usize = 0;
    while i < shape.len()
        invariant
            0 <= i <= shape@.len(),
            shape@.len() <= i32::MAX,
            sizes@.len() == i,
            forall|k: int| 0 <= k < i ==> shape@[k] <= isize::MAX && sizes@[k] == shape@[k],
        decreases shape@.len() - i,
    {
        match try_size(shape[i]) {
            Ok(v) => sizes.push(v),
            Err(e) => {
                assert(0 <= i < shape@.len() && shape@[i as int] > isize::MAX && e == NumpyError::BadSize(shape@[i as int]));
                return Err(e);
            },
        }
        i = i + 1;
    }
    Ok((ndim, sizes))
}

/// Checks that data of `len` elements fill the shape `shape`.
pub fn check_size(shape: &[usize], len: usize) -> (r: Result<(), NumpyError>)
    requires
        products_within(shape@, usize::MAX as nat),
    ensures
        r == if product(shape@) == len {
            Ok::<(), NumpyError>(())
        } else {
            Err(NumpyError::SizeMismatch { expected: len, found: product(shape@) as usize })
        },
{
    let size = product_of(shape);
    if size != len {
        Err(NumpyError::SizeMismatch { expected: len, found: size })
    } else {
        Ok(())
    }
}

} // verus!
