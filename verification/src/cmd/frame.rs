//! Frames: the units in which commands and replies cross the wire.

use vstd::prelude::*;

verus! {

/// One frame of the protocol.
#[derive(Debug)]
pub enum Frame {
    Simple(String),
    Error(String),
    Integer(u64),
    Bulk(Vec<u8>),
    Null,
    Array(Vec<Frame>),
}

impl Frame {
    /// An array frame without items.
    pub fn array() -> (frame: Frame)
        ensures
            frame matches Frame::Array(items) && items@.len() == 0,
    {
        Frame::Array(Vec::new())
    }

    /// Appends a bulk frame that holds `bytes` to an array frame.
    pub fn push_bulk(&mut self, bytes: Vec<u8>)
        requires
            *old(self) is Array,
        ensures
            *final(self) matches Frame::Array(items) && items@ == old(self)->Array_0@.push(
                Frame::Bulk(bytes),
            ),
    {
        let mut taken = Frame::Null;
        std::mem::swap(self, &mut taken);
        match taken {
            Frame::Array(items) => {
                let mut items = items;
                items.push(Frame::Bulk(bytes));
                *self = Frame::Array(items);
            },
            _ => {},
        }
    }
}

} // verus!
