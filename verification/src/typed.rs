//! Compile-time typed handles over the catalog's plain ids.
//!
//! A [`Key<T>`] wraps a [`PropertyKeyId`] and carries its value type `T` in
//! the type system, so assigning a value of the wrong type through the typed
//! write surface is a compile error rather than a runtime type mismatch. The
//! markers [`Text`], [`Int`], and [`Bool`] correspond to the three
//! [`PropertyType`] variants.
use crate::error::{DbError, QueryError};
use crate::id::{IndexId, PropertyKeyId};
use crate::value::{PropertyType, PropertyValue, ValueView};
use core::marker::PhantomData;
use vstd::prelude::*;

mod sealed;

pub use sealed::Sealed;

verus! {

/// A scalar value type usable as a typed-handle marker.
///
/// Implemented only by [`Text`], [`Int`], and [`Bool`]; sealed against
/// downstream implementations.
pub trait ValueType: Sealed + Copy {
    /// The catalog property type this marker corresponds to.
    const TYPE: PropertyType;
}

/// Text value-type marker (corresponds to [`PropertyType::Text`]).
#[derive(Clone, Copy, Debug, PartialEq, Eq, Structural, Hash)]
pub struct Text;

/// Integer value-type marker (corresponds to [`PropertyType::Integer`]).
#[derive(Clone, Copy, Debug, PartialEq, Eq, Structural, Hash)]
pub struct Int;

/// Boolean value-type marker (corresponds to [`PropertyType::Boolean`]).
#[derive(Clone, Copy, Debug, PartialEq, Eq, Structural, Hash)]
pub struct Bool;

impl Sealed for Text {}

impl Sealed for Int {}

impl Sealed for Bool {}

impl ValueType for Text {
    const TYPE: PropertyType = PropertyType::Text;
}

impl ValueType for Int {
    const TYPE: PropertyType = PropertyType::Integer;
}

impl ValueType for Bool {
    const TYPE: PropertyType = PropertyType::Boolean;
}

/// Each marker stands for its property type: `Text` for text, `Int` for
/// integers, `Bool` for booleans.
pub proof fn lemma_marker_types()
    ensures
        Text::TYPE == PropertyType::Text,
        Int::TYPE == PropertyType::Integer,
        Bool::TYPE == PropertyType::Boolean,
{
}

/// A property key that carries its value type `T` in the type system.
#[derive(Copy, Debug, PartialEq, Eq, Hash)]
pub struct Key<T: ValueType> {
    /// The underlying catalog property key id.
    id: PropertyKeyId,
    /// Phantom value-type tag carrying `T`.
    ty: PhantomData<T>,
}

impl<T: ValueType> Clone for Key<T> {
    fn clone(&self) -> (r: Self)
        ensures
            r == *self,
    {
        *self
    }
}

impl<T: ValueType> Key<T> {
    /// The plain id this key wraps.
    pub closed spec fn spec_id(self) -> PropertyKeyId {
        self.id
    }

    /// Wraps a plain property key id as a typed key. The caller asserts the
    /// key was declared with type `T::TYPE`.
    pub fn from_id(id: PropertyKeyId) -> (k: Self)
        ensures
            k.spec_id() == id,
    {
        Key { id, ty: PhantomData }
    }

    /// Returns the underlying plain property key id.
    pub fn id(self) -> (id: PropertyKeyId)
        ensures
            id == self.spec_id(),
    {
        self.id
    }
}

/// An equality index whose indexed key has value type `T`.
#[derive(Copy, Debug, PartialEq, Eq, Hash)]
pub struct EqualityIndex<T: ValueType> {
    /// The underlying catalog index id.
    id: IndexId,
    /// Phantom value-type tag carrying `T`.
    ty: PhantomData<T>,
}

impl<T: ValueType> Clone for EqualityIndex<T> {
    fn clone(&self) -> (r: Self)
        ensures
            r == *self,
    {
        *self
    }
}

impl<T: ValueType> EqualityIndex<T> {
    /// The plain id this index handle wraps.
    pub closed spec fn spec_id(self) -> IndexId {
        self.id
    }

    /// Wraps a plain index id as a typed equality index. The caller asserts
    /// the index covers a key of type `T::TYPE`.
    pub fn from_id(id: IndexId) -> (k: Self)
        ensures
            k.spec_id() == id,
    {
        EqualityIndex { id, ty: PhantomData }
    }

    /// Returns the underlying plain index id.
    pub fn id(self) -> (id: IndexId)
        ensures
            id == self.spec_id(),
    {
        self.id
    }
}

/// A range index whose indexed key has value type `T`.
#[derive(Copy, Debug, PartialEq, Eq, Hash)]
pub struct RangeIndex<T: ValueType> {
    /// The underlying catalog index id.
    id: IndexId,
    /// Phantom value-type tag carrying `T`.
    ty: PhantomData<T>,
}

impl<T: ValueType> Clone for RangeIndex<T> {
    fn clone(&self) -> (r: Self)
        ensures
            r == *self,
    {
        *self
    }
}

impl<T: ValueType> RangeIndex<T> {
    /// The plain id this index handle wraps.
    pub closed spec fn spec_id(self) -> IndexId {
        self.id
    }

    /// Wraps a plain index id as a typed range index. The caller asserts the
    /// index covers a key of type `T::TYPE`.
    pub fn from_id(id: IndexId) -> (k: Self)
        ensures
            k.spec_id() == id,
    {
        RangeIndex { id, ty: PhantomData }
    }

    /// Returns the underlying plain index id.
    pub fn id(self) -> (id: IndexId)
        ensures
            id == self.spec_id(),
    {
        self.id
    }
}

/// A Rust value that may be assigned to a property of value type `T`.
///
/// A value implements `Assignable<T>` only for the `T` it can legally
/// inhabit, so a type-mismatched assignment fails to compile.
pub trait Assignable<T: ValueType>: Sized {
    /// The value this Rust value converts to, or `None` when it lies out of
    /// range.
    spec fn assigned(self) -> Option<ValueView>;

    /// Converts into a [`PropertyValue`], checking range where narrowing;
    /// fails with `ValueOutOfRange` when an unsigned value exceeds `i64::MAX`.
    fn into_value(self) -> (r: Result<PropertyValue, DbError>)
        ensures
            match self.assigned() {
                Some(v) => r matches Ok(p) && p@ == v,
                None => r == Err::<PropertyValue, DbError>(DbError::Query(QueryError::ValueOutOfRange)),
            },
    ;
}

impl Assignable<Text> for &str {
    open spec fn assigned(self) -> Option<ValueView> {
        Some(ValueView::Text(self@))
    }

    fn into_value(self) -> (r: Result<PropertyValue, DbError>) {
        Ok(PropertyValue::Text(self.to_owned()))
    }
}

impl Assignable<Text> for String {
    open spec fn assigned(self) -> Option<ValueView> {
        Some(ValueView::Text(self@))
    }

    fn into_value(self) -> (r: Result<PropertyValue, DbError>) {
        Ok(PropertyValue::Text(self))
    }
}

impl Assignable<Int> for i64 {
    open spec fn assigned(self) -> Option<ValueView> {
        Some(ValueView::Integer(self))
    }

    fn into_value(self) -> (r: Result<PropertyValue, DbError>) {
        Ok(PropertyValue::Integer(self))
    }
}

impl Assignable<Int> for u64 {
    open spec fn assigned(self) -> Option<ValueView> {
        if self <= i64::MAX {
            Some(ValueView::Integer(self as i64))
        } else {
            None
        }
    }

    fn into_value(self) -> (r: Result<PropertyValue, DbError>) {
        PropertyValue::try_from_u64(self)
    }
}

impl Assignable<Int> for usize {
    open spec fn assigned(self) -> Option<ValueView> {
        if self <= i64::MAX {
            Some(ValueView::Integer(self as i64))
        } else {
            None
        }
    }

    fn into_value(self) -> (r: Result<PropertyValue, DbError>) {
        PropertyValue::try_from_usize(self)
    }
}

impl Assignable<Bool> for bool {
    open spec fn assigned(self) -> Option<ValueView> {
        Some(ValueView::Boolean(self))
    }

    fn into_value(self) -> (r: Result<PropertyValue, DbError>) {
        Ok(PropertyValue::Boolean(self))
    }
}

/// A Rust value that can be read back from a property of value type `T`.
pub trait Readable<T: ValueType>: Sized {
    /// Whether `out` is what reading `value` gives: `None` on a type
    /// mismatch or an out-of-range narrowing.
    spec fn reads(value: ValueView, out: Option<Self>) -> bool;

    /// Whether a read succeeds is decided by the value alone.
    proof fn lemma_reads_decided(value: ValueView, a: Option<Self>, b: Option<Self>)
        requires
            Self::reads(value, a),
            Self::reads(value, b),
        ensures
            a is Some <==> b is Some,
    ;

    /// Reads `Self` from a [`PropertyValue`], or `None` on a type mismatch or
    /// out-of-range narrowing.
    fn read(value: &PropertyValue) -> (r: Option<Self>)
        ensures
            Self::reads(value@, r),
    ;
}

impl Readable<Text> for String {
    open spec fn reads(value: ValueView, out: Option<Self>) -> bool {
        match value {
            ValueView::Text(s) => out matches Some(t) && t@ == s,
            _ => out is None,
        }
    }

    proof fn lemma_reads_decided(value: ValueView, a: Option<Self>, b: Option<Self>) {
    }

    fn read(value: &PropertyValue) -> (r: Option<Self>) {
        match value.as_text() {
            Some(text) => Some(text.to_owned()),
            None => None,
        }
    }
}

impl Readable<Int> for i64 {
    open spec fn reads(value: ValueView, out: Option<Self>) -> bool {
        match value {
            ValueView::Integer(i) => out == Some(i),
            _ => out is None,
        }
    }

    proof fn lemma_reads_decided(value: ValueView, a: Option<Self>, b: Option<Self>) {
    }

    fn read(value: &PropertyValue) -> (r: Option<Self>) {
        value.as_int()
    }
}

impl Readable<Int> for usize {
    open spec fn reads(value: ValueView, out: Option<Self>) -> bool {
        match value {
            ValueView::Integer(i) => if 0 <= i && i <= usize::MAX {
                out == Some(i as usize)
            } else {
                out is None
            },
            _ => out is None,
        }
    }

    proof fn lemma_reads_decided(value: ValueView, a: Option<Self>, b: Option<Self>) {
    }

    fn read(value: &PropertyValue) -> (r: Option<Self>) {
        value.as_count()
    }
}

impl Readable<Bool> for bool {
    open spec fn reads(value: ValueView, out: Option<Self>) -> bool {
        match value {
            ValueView::Boolean(b) => out == Some(b),
            _ => out is None,
        }
    }

    proof fn lemma_reads_decided(value: ValueView, a: Option<Self>, b: Option<Self>) {
    }

    fn read(value: &PropertyValue) -> (r: Option<Self>) {
        value.as_bool()
    }
}

} // verus!
