//! The command that fetches the value of a key.

use crate::cmd::frame::Frame;
use vstd::prelude::*;
use vstd::slice::slice_to_vec;
use vstd::string::to_string_from_display_ensures;
use vstd::utf8::encode_utf8;

verus! {

/// Get the value of key.
///
/// If the key does not exist the special value nil is returned.
#[derive(Debug)]
pub struct Get {
    /// Name of the key to get
    key: String,
}

impl Get {
    /// The name of the key, as the string that holds it.
    pub closed spec fn name(&self) -> String {
        self.key
    }

    /// Create a new `Get` command which fetches `key`.
    pub fn new<K: core::fmt::Display>(key: K) -> (get: Get)
        ensures
            to_string_from_display_ensures::<K>(&key, get.name()),
    {
        Get { key: key.to_string() }
    }

    /// The command for a key that was read off a frame.
    pub fn from_key(key: String) -> (get: Get)
        ensures
            get.name() == key,
    {
        Get { key }
    }

    /// Get the key
    pub fn key(&self) -> (key: &str)
        ensures
            key@ == self.name()@,
    {
        self.key.as_str()
    }

    /// The reply to the command: the value in a bulk frame, or the null
    /// frame where the key has no value.
    pub fn reply(value: Option<Vec<u8>>) -> (frame: Frame)
        ensures
            frame == match value {
                Some(value) => Frame::Bulk(value),
                None => Frame::Null,
            },
    {
        match value {
            Some(value) => Frame::Bulk(value),
            None => Frame::Null,
        }
    }

    /// Converts the command into an equivalent `Frame`: an array of two
    /// bulk frames, the command's name and the key.
    pub fn into_frame(self) -> (frame: Frame)
        ensures
            frame matches Frame::Array(items) && items@.len() == 2 && (items@[0] matches Frame::Bulk(
                name,
            ) && name@ == encode_utf8("get"@)) && (items@[1] matches Frame::Bulk(key) && key@
                == encode_utf8(self.name()@)),
    {
        let mut frame = Frame::array();
        frame.push_bulk(slice_to_vec("get".as_bytes()));
        frame.push_bulk(slice_to_vec(self.key.as_str().as_bytes()));
        frame
    }
}

} // verus!
