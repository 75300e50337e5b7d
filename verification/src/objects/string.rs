//! String objects: a key with a value that may be absent.

use vstd::prelude::*;

verus! {

/// The value of a string object, where it has one.
#[derive(Debug)]
pub struct RawString {
    value: Option<Vec<u8>>,
}

impl RawString {
    /// The bytes of the value, where there is one.
    pub closed spec fn bytes(&self) -> Option<Vec<u8>> {
        self.value
    }
}

impl Default for RawString {
    fn default() -> (raw: RawString)
        ensures
            raw.bytes() is None,
    {
        RawString { value: None }
    }
}

/// What is stored under a key.
#[derive(Debug)]
pub struct Object<T> {
    key: Vec<u8>,
    value: T,
}

impl<T> Object<T> {
    /// The key under which the object is stored.
    pub closed spec fn spec_key(&self) -> Seq<u8> {
        self.key@
    }

    /// What is stored.
    pub closed spec fn spec_value(&self) -> T {
        self.value
    }

    /// The key under which the object is stored.
    pub fn key(&self) -> (key: &[u8])
        ensures
            key@ == self.spec_key(),
    {
        self.key.as_slice()
    }
}

impl Object<RawString> {
    /// Whether the object has a value.
    #[inline]
    pub fn has_value(&self) -> (has: bool)
        ensures
            has == self.spec_value().bytes() is Some,
    {
        self.value.value.is_some()
    }

    /// Puts `value` in the place of the object's value, or removes the
    /// value if `value` is `None`. Returns the value that the object had.
    pub fn update_value(&mut self, value: Option<Vec<u8>>) -> (old_value: Option<Vec<u8>>)
        ensures
            final(self).spec_value().bytes() == value,
            old_value == old(self).spec_value().bytes(),
            final(self).spec_key() == old(self).spec_key(),
    {
        let mut value = value;
        std::mem::swap(&mut self.value.value, &mut value);
        value
    }
}

/// An object on the heap.
#[derive(Debug)]
pub struct BoxObject<T> {
    object: Box<Object<T>>,
}

impl<T> BoxObject<T> {
    /// The object.
    pub closed spec fn view(&self) -> Object<T> {
        *self.object
    }

    /// The object.
    pub fn object(&self) -> (object: &Object<T>)
        ensures
            *object == self.view(),
    {
        &*self.object
    }

    /// Takes the object off the heap.
    pub fn into_object(self) -> (object: Object<T>)
        ensures
            object == self.view(),
    {
        *self.object
    }
}

impl BoxObject<RawString> {
    /// A string object without a value, stored under `key`.
    pub fn with_key(key: &[u8]) -> (object: BoxObject<RawString>)
        ensures
            object.view().spec_key() == key@,
            object.view().spec_value().bytes() is None,
    {
        BoxObject {
            object: Box::new(
                Object { key: vstd::slice::slice_to_vec(key), value: RawString::default() },
            ),
        }
    }

    /// A string object with the value `value`, stored under `key`.
    pub fn with_key_value(key: &[u8], value: Vec<u8>) -> (object: BoxObject<RawString>)
        ensures
            object.view().spec_key() == key@,
            object.view().spec_value().bytes() == Some(value),
    {
        let mut object = Object { key: vstd::slice::slice_to_vec(key), value: RawString::default() };
        object.update_value(Some(value));
        BoxObject { object: Box::new(object) }
    }
}

} // verus!
