//! Shared byte containers: the persistent vector that backs payloads and
//! uniform chunk data, and the slice-like focus handed out to readers.

use vstd::prelude::*;

verus! {

/// `im_rc::Vector`, the persistent vector holding payload and chunk bytes.
#[verifier::external_type_specification]
#[verifier::external_body]
#[verifier::reject_recursive_types(A)]
pub struct ExVector<A>(im_rc::Vector<A>);

/// `im_rc::vector::Focus`, a cheaply clonable window onto a vector.
#[verifier::external_type_specification]
#[verifier::external_body]
#[verifier::reject_recursive_types(A)]
pub struct ExFocus<'a, A>(im_rc::vector::Focus<'a, A>);

/// `ahash::RandomState`, the hasher state of the persistent hash maps.
#[verifier::external_type_specification]
#[verifier::external_body]
pub struct ExRandomState(ahash::RandomState);

/// `im_rc::HashMap`, the persistent hash map.
#[verifier::external_type_specification]
#[verifier::external_body]
#[verifier::reject_recursive_types(K)]
#[verifier::reject_recursive_types(V)]
#[verifier::reject_recursive_types(S)]
pub struct ExHashMap<K, V, S>(im_rc::HashMap<K, V, S>);

/// A persistent hash map with the hasher used throughout this crate.
pub type ImHashMap<K, V> = im_rc::HashMap<K, V, ahash::RandomState>;

/// A read-only window onto shared bytes.
pub type ImSlice<'a> = im_rc::vector::Focus<'a, u8>;

/// The bytes held by a persistent vector, in order.
pub uninterp spec fn vector_bytes(v: &im_rc::Vector<u8>) -> Seq<u8>;

/// The bytes visible through a focus, in order.
pub uninterp spec fn slice_bytes(s: &im_rc::vector::Focus<'_, u8>) -> Seq<u8>;

/// `Vector::focus`: the focus of a vector shows all of its bytes, and their
/// number is a `usize`, as `Focus::len` returns it.
#[verifier::external_body]
pub(crate) fn focus_of<'a>(v: &'a im_rc::Vector<u8>) -> (s: ImSlice<'a>)
    ensures
        slice_bytes(&s) == vector_bytes(v),
        slice_bytes(&s).len() <= usize::MAX,
{
    v.focus()
}

/// `Focus::narrow` on `offset..offset + length`: the result shows exactly that
/// part of what the focus showed. The range must be non-empty and in bounds.
#[verifier::external_body]
pub fn slice_with_length<'a>(focus: ImSlice<'a>, offset: usize, length: usize) -> (s: ImSlice<'a>)
    requires
        length > 0,
        offset + length <= slice_bytes(&focus).len(),
    ensures
        slice_bytes(&s) == slice_bytes(&focus).subrange(offset as int, offset + length),
{
    focus.narrow(offset..offset + length)
}


/// `Vector::len`: the number of bytes in the vector.
#[verifier::external_body]
pub(crate) fn bytes_len(v: &im_rc::Vector<u8>) -> (r: usize)
    ensures
        r == vector_bytes(v).len(),
{
    v.len()
}

/// `From<Vec<u8>>` for vectors: the same bytes in the same order.
#[verifier::external_body]
pub(crate) fn bytes_from(v: Vec<u8>) -> (r: im_rc::Vector<u8>)
    ensures
        vector_bytes(&r) == v@,
{
    im_rc::Vector::from(v)
}

/// `Clone` for a focus: the copy shows the same bytes.
#[verifier::external_body]
pub(crate) fn clone_slice<'a>(s: &ImSlice<'a>) -> (r: ImSlice<'a>)
    ensures
        slice_bytes(&r) == slice_bytes(s),
{
    s.clone()
}

/// `Clone` for a vector of bytes: the copy holds the same bytes.
#[verifier::external_body]
pub(crate) fn clone_bytes(v: &im_rc::Vector<u8>) -> (r: im_rc::Vector<u8>)
    ensures
        vector_bytes(&r) == vector_bytes(v),
{
    v.clone()
}

/// `PartialEq` for vectors of bytes: equal lengths and equal bytes throughout.
#[verifier::external_body]
pub(crate) fn same_bytes(a: &im_rc::Vector<u8>, b: &im_rc::Vector<u8>) -> (r: bool)
    ensures
        r == (vector_bytes(a) == vector_bytes(b)),
{
    a == b
}

} // verus!
