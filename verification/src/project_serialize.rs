use std::marker::PhantomData;
use vstd::prelude::*;

verus! {

/// Which pin of a component a serialized handle points at.
#[derive(Debug, Clone, Copy, PartialEq, Eq, Hash, Structural)]
pub enum PinIndex {
    Left,
    Right,
    Marker(usize),
}

/// A marker pin, by the index of its component (none for the root) and its
/// place on that component.
#[derive(Debug, Clone, Copy, PartialEq, Eq, Hash, Structural)]
pub struct MarkerPinHandleForSerialize {
    pub component: Option<usize>,
    pub index: PinIndex,
}

/// A component instance, by its index in the serialized list.
#[derive(Debug, Clone, Copy, PartialEq, Eq, Hash, Structural)]
pub struct ComponentInstanceHandleForSerialize {
    pub component: usize,
}

/// Selects the serializing side of a value pair.
#[derive(Debug, Clone, Copy, PartialEq, Eq, Structural)]
pub struct Ser;

/// Selects the deserializing side of a value pair.
#[derive(Debug, Clone, Copy, PartialEq, Eq, Structural)]
pub struct De;

/// Carries a value to the serializer; such values are never compared.
#[derive(Debug, Clone)]
pub struct Wrapper<T>(pub T);

/// The parameter types of a nullable value as it is written out.
#[derive(Debug, PartialEq)]
pub struct NullableValueForSerialize<T, S>(PhantomData<(T, S)>);

/// The parameter types of a fixed value as it is written out.
#[derive(Debug, PartialEq)]
pub struct ValueFixedForSerialize<Image, Audio, S>(PhantomData<(Image, Audio, S)>);

} // verus!
